use libakaza::user_side_data::user_data::{bonus_of, UserData};
use libakaza::user_side_data::user_log::{
    compacted, events_of, format_record, format_u64, parse_record, parse_u64, replay, LogKind, LogRecord,
};

fn record(timestamp: u64, kind: LogKind, key: &str, delta: u64) -> LogRecord {
    LogRecord {
        timestamp,
        kind,
        key: key.to_string(),
        delta,
    }
}

#[test]
fn numbers_are_written_in_decimal() {
    for n in [0u64, 7, 10, 101, 1_700_000_000, u64::MAX] {
        let text: String = format_u64(n).into_iter().collect();
        assert_eq!(text, n.to_string());
        assert_eq!(parse_u64(&text), Some(n));
    }
    assert_eq!(parse_u64("007"), Some(7));
    assert_eq!(parse_u64("18446744073709551615"), Some(u64::MAX));
    assert_eq!(parse_u64("18446744073709551616"), None);
    assert_eq!(parse_u64("99999999999999999999999"), None);
    assert_eq!(parse_u64(""), None);
    assert_eq!(parse_u64("12a"), None);
    assert_eq!(parse_u64("-1"), None);
    assert_eq!(parse_u64("１"), None);
}

#[test]
fn records_are_lines_of_four_fields() {
    let word = record(1_700_000_000, LogKind::Unigram, "私/わたし", 1);
    assert_eq!(format_record(&word), "1700000000\tu\t私/わたし\t1");
    assert_eq!(parse_record("1700000000\tu\t私/わたし\t1"), Some(word));
    let pair = record(5, LogKind::Bigram, "私/わたし の/の", 12);
    assert_eq!(format_record(&pair), "5\tb\t私/わたし の/の\t12");
    assert_eq!(parse_record(&format_record(&pair)), Some(pair));
    assert_eq!(
        parse_record("0\tu\t\t0"),
        Some(record(0, LogKind::Unigram, "", 0))
    );
}

#[test]
fn lines_of_another_form_are_no_records() {
    for line in [
        "",
        "1\tu\tkey",
        "1\tu\tkey\t1\t",
        "1\tx\tkey\t1",
        "1\tub\tkey\t1",
        "1\t\tkey\t1",
        "x\tu\tkey\t1",
        "1\tu\tkey\tx",
        "1\tu\tkey\t",
        "1 u key 1",
    ] {
        assert_eq!(parse_record(line), None);
    }
}

#[test]
fn replaying_the_log_gives_the_counts_back() {
    let mut user_data = UserData::default();
    let log = "100\tu\t私/わたし\t1\n100\tu\tの/の\t1\n100\tb\t私/わたし の/の\t1\n200\tu\t私/わたし\t2\n";
    for line in log.lines() {
        assert!(replay(&mut user_data, &parse_record(line).unwrap()));
    }
    assert_eq!(user_data.get_unigram_cost("私/わたし"), bonus_of(3));
    assert_eq!(user_data.get_unigram_cost("の/の"), bonus_of(1));
    assert_eq!(user_data.get_bigram_cost("私/わたし", "の/の"), bonus_of(1));
    assert!(!replay(
        &mut user_data,
        &record(300, LogKind::Bigram, "nospace", 1)
    ));
    assert_eq!(user_data.get_unigram_cost("私/わたし"), bonus_of(3));
}

#[test]
fn a_choice_with_a_delta_counts_that_often() {
    let mut user_data = UserData::default();
    let before = user_data.get_unigram_cost("箸/はし");
    user_data.record_word("箸/はし", 5);
    assert_eq!(user_data.get_unigram_cost("箸/はし"), bonus_of(5));
    assert!(user_data.get_unigram_cost("箸/はし") > before);
    user_data.record_word("箸/はし", 0);
    assert_eq!(user_data.get_unigram_cost("箸/はし"), bonus_of(5));
    user_data.record_pair("箸/はし", "を/を", u64::MAX);
    assert_eq!(
        user_data.get_bigram_cost("箸/はし", "を/を"),
        bonus_of(0x7fff_ffff)
    );
}

#[test]
fn compacted_log_replays_to_the_same_history() {
    let mut user_data = UserData::default();
    user_data.set_now(50);
    user_data.record_entries(vec!["私/わたし".to_string(), "の/の".to_string()]);
    user_data.set_now(2_592_050);
    user_data.record_entries(vec!["私/わたし".to_string()]);
    let log = compacted(&user_data);
    assert_eq!(
        log,
        vec![
            record(2_592_050, LogKind::Unigram, "私/わたし", 1),
            record(50, LogKind::Unigram, "の/の", 1),
            record(50, LogKind::Bigram, "私/わたし の/の", 1),
        ]
    );
    let mut replayed = UserData::default();
    for event in &log {
        assert!(replay(&mut replayed, event));
    }
    replayed.set_now(3_000_000);
    user_data.set_now(3_000_000);
    for word in ["私/わたし", "の/の", "x"] {
        assert_eq!(
            replayed.get_unigram_cost(word),
            user_data.get_unigram_cost(word)
        );
    }
    assert_eq!(
        replayed.get_bigram_cost("私/わたし", "の/の"),
        user_data.get_bigram_cost("私/わたし", "の/の")
    );
    assert_eq!(compacted(&UserData::default()), vec![]);
}

#[test]
fn a_choice_makes_events_of_words_and_pairs() {
    let clauses = vec!["私/わたし".to_string(), "の/の".to_string(), "名前/なまえ".to_string()];
    assert_eq!(
        events_of(&clauses, 7),
        vec![
            record(7, LogKind::Unigram, "私/わたし", 1),
            record(7, LogKind::Unigram, "の/の", 1),
            record(7, LogKind::Bigram, "私/わたし の/の", 1),
            record(7, LogKind::Unigram, "名前/なまえ", 1),
            record(7, LogKind::Bigram, "の/の 名前/なまえ", 1),
        ]
    );
    assert_eq!(events_of(&vec![], 7), vec![]);
    let mut replayed = UserData::default();
    for event in events_of(&clauses, 7) {
        assert!(replay(&mut replayed, &event));
    }
    let mut recorded = UserData::default();
    recorded.set_now(7);
    recorded.record_entries(clauses);
    for word in ["私/わたし", "の/の", "名前/なまえ"] {
        assert_eq!(replayed.get_unigram_cost(word), recorded.get_unigram_cost(word));
    }
    assert_eq!(
        replayed.get_bigram_cost("の/の", "名前/なまえ"),
        recorded.get_bigram_cost("の/の", "名前/なまえ")
    );
}
