use vibrato::dictionary::connector::scorer::{Scorer, ScorerBuilder};

fn sample() -> Scorer {
    let mut builder = ScorerBuilder::new();
    builder.insert(18, 17, 1);
    builder.insert(4, 9, 2);
    builder.insert(17, 0, 3);
    builder.insert(17, 12, 4);
    builder.insert(8, 6, 5);
    builder.insert(2, 5, 6);
    builder.insert(12, 18, 7);
    builder.insert(9, 1, 8);
    builder.insert(19, 5, 9);
    builder.insert(9, 4, 10);
    builder.insert(0, 19, 11);
    builder.insert(2, 19, 12);
    builder.insert(7, 3, 13);
    builder.insert(4, 2, -14);
    builder.build()
}

#[test]
fn additive_scorer_retrieves_inserted_weights() {
    let scorer = sample();
    assert_eq!(scorer.retrieve_weight(18, 17), Some(1));
    assert_eq!(scorer.retrieve_weight(4, 9), Some(2));
    assert_eq!(scorer.retrieve_weight(17, 0), Some(3));
    assert_eq!(scorer.retrieve_weight(17, 12), Some(4));
    assert_eq!(scorer.retrieve_weight(2, 19), Some(12));
    assert_eq!(scorer.retrieve_weight(4, 2), Some(-14));
    assert_eq!(scorer.retrieve_weight(7, 3), Some(13));
}

#[test]
fn additive_scorer_misses_absent_pairs() {
    let scorer = sample();
    assert_eq!(scorer.retrieve_weight(18, 16), None);
    assert_eq!(scorer.retrieve_weight(17, 1), None);
    assert_eq!(scorer.retrieve_weight(1, 1), None);
    assert_eq!(scorer.retrieve_weight(20, 0), None);
    assert_eq!(scorer.retrieve_weight(100, 5), None);
    assert_eq!(scorer.retrieve_weight(4, u32::MAX), None);
    assert_eq!(scorer.retrieve_weight(u32::MAX, 0), None);
}

#[test]
fn additive_scorer_calculates_scores() {
    let scorer = sample();
    assert_eq!(scorer.calculate_score(&[18, 4, 1], &[17, 2, 1]), 1 - 14);
    assert_eq!(scorer.calculate_score(&[17, 17, 9, 5], &[0, 12, 4]), 3 + 4 + 10);
    assert_eq!(scorer.calculate_score(&[], &[1, 2]), 0);
}

#[test]
fn additive_scorer_insert_replaces() {
    let mut builder = ScorerBuilder::new();
    builder.insert(3, 5, 1);
    builder.insert(3, 5, 9);
    builder.insert(3, 2, 4);
    let scorer = builder.build();
    assert_eq!(scorer.retrieve_weight(3, 5), Some(9));
    assert_eq!(scorer.retrieve_weight(3, 2), Some(4));
    assert_eq!(scorer.retrieve_weight(3, 3), None);
}

#[test]
fn additive_scorer_empty() {
    let scorer = ScorerBuilder::new().build();
    assert_eq!(scorer.retrieve_weight(0, 0), None);
    assert_eq!(scorer.calculate_score(&[0], &[0]), 0);
    let scorer = Scorer::default();
    assert_eq!(scorer.retrieve_weight(0, 0), None);
}

#[test]
fn additive_scorer_check_fits() {
    let mut builder = ScorerBuilder::new();
    builder.insert(3, 5, 1);
    builder.insert(3, 0x7fff_fff0, 2);
    assert!(builder.check_fits());
    builder.insert(4, 0x8000_0000, 3);
    assert!(!builder.check_fits());
}
