use libakaza::cost::{BONUS_MAX, COST_ONE};
use libakaza::user_side_data::user_data::{
    bonus_of, decay, UserData, COUNT_MAX, DEFAULT_HALF_LIFE,
};

#[test]
fn unseen_words_earn_nothing() {
    let user_data = UserData::default();
    assert_eq!(user_data.get_unigram_cost("私/わたし"), 0);
    assert_eq!(user_data.get_bigram_cost("私/わたし", "の/の"), 0);
}

#[test]
fn learning_raises_the_cost_of_the_word() {
    let mut user_data = UserData::default();
    let mut before = user_data.get_unigram_cost("私/わたし");
    for _ in 0..40 {
        user_data.record_entries(vec!["私/わたし".to_string()]);
        let after = user_data.get_unigram_cost("私/わたし");
        assert!(after > before);
        before = after;
    }
    assert_eq!(user_data.get_unigram_cost("渡し/わたし"), 0);
}

#[test]
fn bonus_is_the_logarithm_on_straight_lines() {
    assert_eq!(bonus_of(0), 0);
    assert_eq!(bonus_of(1), COST_ONE);
    assert_eq!(bonus_of(2), COST_ONE + COST_ONE / 2);
    assert_eq!(bonus_of(3), 2 * COST_ONE);
    assert_eq!(bonus_of(4), 2 * COST_ONE + COST_ONE / 4);
    assert_eq!(bonus_of(5), 2 * COST_ONE + COST_ONE / 2);
    assert_eq!(bonus_of(7), 3 * COST_ONE);
    assert_eq!(bonus_of(COUNT_MAX), 31 * COST_ONE);
    assert!(bonus_of(COUNT_MAX) <= BONUS_MAX);
    assert!(bonus_of(COUNT_MAX - 1) < bonus_of(COUNT_MAX));
}

#[test]
fn counts_fade_with_time() {
    assert_eq!(decay(1000, 0, 100), 1000);
    assert_eq!(decay(1000, 100, 100), 500);
    assert_eq!(decay(1000, 200, 100), 250);
    assert_eq!(decay(1000, 50, 100), 750);
    assert_eq!(decay(1000, 150, 100), 375);
    assert_eq!(decay(1000, 99, 100), 505);
    assert_eq!(decay(3, 100, 100), 1);
    assert_eq!(decay(1, 100, 100), 0);
    assert_eq!(decay(1000, 100_000, 100), 0);
    assert_eq!(decay(u64::MAX, u64::MAX, 1), 0);
    assert_eq!(decay(u64::MAX, u64::MAX - 1, u64::MAX), u64::MAX / 2 + 1);
}

#[test]
fn record_entries_counts_words_and_pairs() {
    let mut user_data = UserData::default();
    user_data.record_entries(vec![
        "私/わたし".to_string(),
        "の/の".to_string(),
        "私/わたし".to_string(),
    ]);
    assert_eq!(user_data.get_unigram_cost("私/わたし"), bonus_of(2));
    assert_eq!(user_data.get_unigram_cost("の/の"), bonus_of(1));
    assert_eq!(user_data.get_bigram_cost("私/わたし", "の/の"), bonus_of(1));
    assert_eq!(user_data.get_bigram_cost("の/の", "私/わたし"), bonus_of(1));
    assert_eq!(user_data.get_bigram_cost("私/わたし", "私/わたし"), 0);
    user_data.record_entries(vec![]);
    assert_eq!(user_data.get_unigram_cost("の/の"), bonus_of(1));
}

#[test]
fn history_fades_by_the_clock() {
    let mut user_data = UserData::default();
    user_data.set_now(1000);
    for _ in 0..4 {
        user_data.record_entries(vec!["私/わたし".to_string()]);
    }
    assert_eq!(user_data.get_unigram_cost("私/わたし"), bonus_of(4));
    user_data.set_now(1000 + DEFAULT_HALF_LIFE);
    assert_eq!(user_data.get_unigram_cost("私/わたし"), bonus_of(2));
    user_data.record_entries(vec!["私/わたし".to_string()]);
    assert_eq!(user_data.get_unigram_cost("私/わたし"), bonus_of(3));
    // a clock that was set back counts as no time gone
    user_data.set_now(0);
    assert_eq!(user_data.get_unigram_cost("私/わたし"), bonus_of(3));
    assert!(!user_data.set_half_life(0));
    assert!(user_data.set_half_life(10));
    user_data.set_now(1000 + DEFAULT_HALF_LIFE + 10);
    assert_eq!(user_data.get_unigram_cost("私/わたし"), bonus_of(1));
    let copy = user_data.duplicate();
    assert_eq!(copy.get_unigram_cost("私/わたし"), bonus_of(1));
}
