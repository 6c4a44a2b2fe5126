use tendie_factory::metrics::nlp::{
    bert_organization_tokenization, sentiment_classifier, Entity, Polarity,
};

fn entity(word: &str, label: &str, score: f64) -> Entity {
    Entity { word: word.to_string(), label: label.to_string(), score_bits: score.to_bits() }
}

#[test]
fn keeps_confident_organizations() {
    let entities = vec![
        entity("GameStop", "I-ORG", 0.9),
        entity("Elon", "I-PER", 0.99),
        entity("BlackBerry", "I-ORG", 0.2),
        entity("Nokia", "I-ORG", 0.25),
        entity("Paris", "I-LOC", 0.5),
    ];
    assert_eq!(bert_organization_tokenization(&entities), vec!["GameStop".to_string(), "Nokia".to_string()]);
}

#[test]
fn threshold_itself_is_not_enough() {
    let entities = vec![
        entity("AtThreshold", "I-ORG", 0.24),
        entity("JustAbove", "I-ORG", f64::from_bits(0.24f64.to_bits() + 1)),
        entity("Infinite", "I-ORG", f64::INFINITY),
        entity("NotANumber", "I-ORG", f64::NAN),
        entity("Negative", "I-ORG", -0.5),
    ];
    assert_eq!(
        bert_organization_tokenization(&entities),
        vec!["JustAbove".to_string(), "Infinite".to_string()]
    );
}

#[test]
fn no_entities_no_organizations() {
    assert!(bert_organization_tokenization(&vec![]).is_empty());
}

#[test]
fn sentiment_keeps_first_polarity() {
    assert_eq!(sentiment_classifier(&vec![Polarity::Negative, Polarity::Positive]), vec![Polarity::Negative]);
    assert_eq!(sentiment_classifier(&vec![Polarity::Positive]), vec![Polarity::Positive]);
}

#[test]
fn batch_versions_apply_per_text() {
    let predictions = vec![
        vec![entity("GameStop", "I-ORG", 0.9)],
        vec![],
        vec![entity("Apple", "I-ORG", 0.1), entity("Tesla", "I-ORG", 0.8)],
    ];
    let words = tendie_factory::nlp::bert_organization_tokenization(&predictions);
    assert_eq!(words, vec![vec!["GameStop".to_string()], vec![], vec!["Tesla".to_string()]]);
    let polarities = tendie_factory::nlp::sentiment_classifier(&vec![
        vec![Polarity::Positive, Polarity::Negative],
        vec![Polarity::Negative],
    ]);
    assert_eq!(polarities, vec![Polarity::Positive, Polarity::Negative]);
}
