use libakaza::cost::{back_off, COST_MAX, COST_ONE};
use libakaza::lm::system_bigram::{BigramError, SystemBigramLMBuilder, ID_LIMIT};
use libakaza::lm::system_unigram_lm::{
    SystemUnigramLMBuilder, UnigramError, DEFAULT_COST_EMPTY,
};

#[test]
fn unigram_ids_are_dense_and_below_num_keys() {
    let mut builder = SystemUnigramLMBuilder::default();
    let words = ["私/わたし", "彼/かれ", "の/の"];
    for (i, word) in words.iter().enumerate() {
        let id = builder
            .add(&word.to_string(), -(i as i64 + 1) * COST_ONE)
            .unwrap();
        assert_eq!(id, i as u32);
    }
    let lm = builder.build();
    assert_eq!(lm.num_keys(), 3);
    for (i, word) in words.iter().enumerate() {
        let (id, cost) = lm.find(word).unwrap();
        assert_eq!(id, i as u32);
        assert!(id < lm.num_keys());
        assert_eq!(cost, -(i as i64 + 1) * COST_ONE);
    }
    assert_eq!(lm.find("彼女/かのじょ"), None);
    assert_eq!(lm.find(""), None);
}

#[test]
fn unigram_default_cost_is_below_every_cost() {
    let empty = SystemUnigramLMBuilder::default().build();
    assert_eq!(empty.num_keys(), 0);
    assert_eq!(empty.get_default_cost(), DEFAULT_COST_EMPTY);
    assert_eq!(DEFAULT_COST_EMPTY, -20 * COST_ONE);
    let mut builder = SystemUnigramLMBuilder::default();
    builder.add(&"a/a".to_string(), -3 * COST_ONE).unwrap();
    builder.add(&"b/b".to_string(), -7 * COST_ONE).unwrap();
    builder.add(&"c/c".to_string(), -5 * COST_ONE).unwrap();
    assert_eq!(builder.build().get_default_cost(), -8 * COST_ONE);
}

#[test]
fn unigram_builder_refuses_unfit_words() {
    let mut builder = SystemUnigramLMBuilder::default();
    builder.add(&"a/a".to_string(), 0).unwrap();
    assert_eq!(
        builder.add(&"a/a".to_string(), 1),
        Err(UnigramError::DuplicateWord)
    );
    assert_eq!(
        builder.add(&"b/b".to_string(), COST_MAX + 1),
        Err(UnigramError::CostOutOfRange)
    );
    assert_eq!(
        builder.add(&"b/b".to_string(), -COST_MAX - 1),
        Err(UnigramError::CostOutOfRange)
    );
    assert_eq!(builder.add(&"b/b".to_string(), -COST_MAX), Ok(1));
    assert_eq!(builder.build().num_keys(), 2);
}

#[test]
fn bigram_finds_what_was_added() {
    let mut builder = SystemBigramLMBuilder::default();
    builder.add(1, 2, -COST_ONE).unwrap();
    builder.add(2, 1, -2 * COST_ONE).unwrap();
    builder.add(0, 0, -3 * COST_ONE).unwrap();
    builder.add(ID_LIMIT - 1, ID_LIMIT - 1, -4 * COST_ONE).unwrap();
    builder.add(1, 2, -5 * COST_ONE).unwrap();
    let lm = builder.build();
    assert_eq!(lm.find(1, 2), Some(-5 * COST_ONE));
    assert_eq!(lm.find(2, 1), Some(-2 * COST_ONE));
    assert_eq!(lm.find(0, 0), Some(-3 * COST_ONE));
    assert_eq!(lm.find(ID_LIMIT - 1, ID_LIMIT - 1), Some(-4 * COST_ONE));
    assert_eq!(lm.find(2, 2), None);
    assert_eq!(lm.find(0, ID_LIMIT), None);
    // the pair (0, 2^24 + 2) must not be taken for the pair (1, 2)
    assert_eq!(lm.find(0, ID_LIMIT + 2), None);
}

#[test]
fn bigram_builder_refuses_unfit_pairs() {
    let mut builder = SystemBigramLMBuilder::default();
    assert_eq!(builder.add(ID_LIMIT, 0, 0), Err(BigramError::IdOutOfRange));
    assert_eq!(
        builder.add(0, ID_LIMIT, COST_MAX + 1),
        Err(BigramError::IdOutOfRange)
    );
    assert_eq!(
        builder.add(0, 0, COST_MAX + 1),
        Err(BigramError::CostOutOfRange)
    );
    assert_eq!(builder.build().find(0, 0), None);
}

#[test]
fn back_off_halves_towards_zero() {
    assert_eq!(back_off(-22 * COST_ONE), -11 * COST_ONE);
    assert_eq!(back_off(-3), -1);
    assert_eq!(back_off(3), 1);
    assert_eq!(back_off(0), 0);
    assert_eq!(back_off(-1), 0);
}
