use libakaza::cost::{COST_MAX, COST_ONE};
use libakaza::lm::codec::{
    cost_from_f32_bits, decode_bigram_entry, decode_bigram_key, decode_bits, decode_unigram_key,
    decode_unigram_payload, encode_bigram_entry, encode_bigram_key, encode_bits, encode_id,
    encode_unigram_key, encode_unigram_payload,
};
use libakaza::lm::corpus::{
    add_2gram, add_unigram, parse_2gram_line, parse_unigram_line, white_space, CorpusError,
};
use libakaza::lm::system_bigram::SystemBigramLMBuilder;
use libakaza::lm::system_unigram_lm::SystemUnigramLMBuilder;

#[test]
fn ids_take_three_bytes_most_significant_first() {
    assert_eq!(encode_id(0x123456), Some(vec![0x12, 0x34, 0x56]));
    assert_eq!(encode_id(0), Some(vec![0, 0, 0]));
    assert_eq!(encode_id(0xff_ffff), Some(vec![0xff, 0xff, 0xff]));
    assert_eq!(encode_id(0x100_0000), None);
}

#[test]
fn cost_bits_take_four_bytes_least_significant_first() {
    let bits = (-6.973_789_6f32).to_bits();
    assert_eq!(encode_bits(bits), (-6.973_789_6f32).to_le_bytes().to_vec());
    assert_eq!(encode_bits(0x1234_5678), vec![0x78, 0x56, 0x34, 0x12]);
    assert_eq!(decode_bits(&[0x78, 0x56, 0x34, 0x12]), Some(0x1234_5678));
    assert_eq!(decode_bits(&[0x78, 0x56, 0x34]), None);
}

#[test]
fn unigram_payload_is_id_then_cost() {
    let bits = (-1.5f32).to_bits();
    let payload = encode_unigram_payload(0x01_0203, bits).unwrap();
    assert_eq!(payload, vec![0x01, 0x02, 0x03, 0x00, 0x00, 0xc0, 0xbf]);
    assert_eq!(decode_unigram_payload(&payload), Some((0x01_0203, bits)));
    assert_eq!(decode_unigram_payload(&payload[..6]), None);
    assert_eq!(encode_unigram_payload(0x100_0000, bits), None);
}

#[test]
fn bigram_key_is_two_ids() {
    let key = encode_bigram_key(0x01_0203, 0xa0_b0c0).unwrap();
    assert_eq!(key, vec![0x01, 0x02, 0x03, 0xa0, 0xb0, 0xc0]);
    assert_eq!(decode_bigram_key(&key), Some((0x01_0203, 0xa0_b0c0)));
    assert_eq!(decode_bigram_key(&key[..5]), None);
    assert_eq!(encode_bigram_key(0x100_0000, 1), None);
    assert_eq!(encode_bigram_key(1, 0x100_0000), None);
}

#[test]
fn costs_are_read_off_the_float_bits() {
    assert_eq!(cost_from_f32_bits(0f32.to_bits()), Some(0));
    assert_eq!(cost_from_f32_bits((-0f32).to_bits()), Some(0));
    assert_eq!(cost_from_f32_bits(1f32.to_bits()), Some(COST_ONE));
    assert_eq!(cost_from_f32_bits((-1f32).to_bits()), Some(-COST_ONE));
    assert_eq!(cost_from_f32_bits(0.5f32.to_bits()), Some(COST_ONE / 2));
    assert_eq!(cost_from_f32_bits((-6.25f32).to_bits()), Some(-25 * COST_ONE / 4));
    assert_eq!(cost_from_f32_bits(32768f32.to_bits()), Some(COST_MAX));
    assert_eq!(cost_from_f32_bits((-32768f32).to_bits()), Some(-COST_MAX));
    assert_eq!(cost_from_f32_bits(32768.004f32.to_bits()), None);
    assert_eq!(cost_from_f32_bits(1e30f32.to_bits()), None);
    assert_eq!(cost_from_f32_bits(f32::INFINITY.to_bits()), None);
    assert_eq!(cost_from_f32_bits(f32::NAN.to_bits()), None);
    assert_eq!(cost_from_f32_bits(f32::MIN_POSITIVE.to_bits()), Some(0));
    assert_eq!(cost_from_f32_bits(1e-40f32.to_bits()), Some(0));
    // 2^-32 is the smallest cost; below it costs are cut off towards zero
    assert_eq!(cost_from_f32_bits((1.0f32 / 4294967296.0).to_bits()), Some(1));
    assert_eq!(cost_from_f32_bits((-1.5f32 / 4294967296.0).to_bits()), Some(-1));
    assert_eq!(cost_from_f32_bits((0.9f32 / 4294967296.0).to_bits()), Some(0));
    for x in [-6.973_789_6f32, -0.001, 3.141_592_7, -20.0, 123.456, -1e-5] {
        let exact = (x as f64 * 4294967296.0).trunc() as i64;
        assert_eq!(cost_from_f32_bits(x.to_bits()), Some(exact));
    }
}

#[test]
fn unigram_lines_are_word_and_score() {
    assert_eq!(
        parse_unigram_line("倉庫会社/そうこがいしゃ -6.973789593503506"),
        Some((
            "倉庫会社/そうこがいしゃ".to_string(),
            "-6.973789593503506".to_string()
        ))
    );
    assert_eq!(
        parse_unigram_line("  a/b  -1 2\t\n"),
        Some(("a/b".to_string(), " -1 2".to_string()))
    );
    assert_eq!(parse_unigram_line("a/b"), None);
    assert_eq!(parse_unigram_line("   "), None);
    assert_eq!(parse_unigram_line(""), None);
    assert_eq!(parse_unigram_line(" a/b\t-1 "), None);
    assert!(white_space(' ') && white_space('\t') && white_space('\u{3000}'));
    assert!(!white_space('a') && !white_space('\u{200b}'));
}

#[test]
fn bigram_lines_are_two_words_and_score() {
    assert_eq!(
        parse_2gram_line("私/わたし\tの/の -1.5"),
        Some((
            "私/わたし".to_string(),
            "の/の".to_string(),
            "-1.5".to_string()
        ))
    );
    assert_eq!(
        parse_2gram_line("a\tb\tc 1"),
        Some(("a".to_string(), "b\tc".to_string(), "1".to_string()))
    );
    assert_eq!(parse_2gram_line("a\tb -1.5 x"), None);
    assert_eq!(parse_2gram_line("a\tb"), None);
    assert_eq!(parse_2gram_line("a b -1.5"), None);
    assert_eq!(parse_2gram_line("ab -1.5"), None);
    assert_eq!(parse_2gram_line(""), None);
}

#[test]
fn corpus_lines_fill_the_models() {
    let mut unigram = SystemUnigramLMBuilder::default();
    let word = "私/わたし".to_string();
    assert_eq!(add_unigram(&mut unigram, &word, (-1.5f32).to_bits()), Ok(0));
    assert_eq!(
        add_unigram(&mut unigram, &"の/の".to_string(), (-0.5f32).to_bits()),
        Ok(1)
    );
    assert_eq!(
        add_unigram(&mut unigram, &word, (-1.5f32).to_bits()),
        Err(CorpusError::DuplicateWord)
    );
    assert_eq!(
        add_unigram(&mut unigram, &"x/x".to_string(), f32::NAN.to_bits()),
        Err(CorpusError::BadScore)
    );
    let unigram = unigram.build();
    assert_eq!(unigram.find("私/わたし"), Some((0, -3 * COST_ONE / 2)));
    let mut bigram = SystemBigramLMBuilder::default();
    assert_eq!(
        add_2gram(&mut bigram, &unigram, "私/わたし", "の/の", (-0.25f32).to_bits()),
        Ok(true)
    );
    assert_eq!(
        add_2gram(&mut bigram, &unigram, "私/わたし", "は/は", (-0.25f32).to_bits()),
        Ok(false)
    );
    assert_eq!(
        add_2gram(&mut bigram, &unigram, "は/は", "の/の", f32::NAN.to_bits()),
        Ok(false)
    );
    assert_eq!(
        add_2gram(&mut bigram, &unigram, "の/の", "私/わたし", f32::INFINITY.to_bits()),
        Err(CorpusError::BadScore)
    );
    let bigram = bigram.build();
    assert_eq!(bigram.find(0, 1), Some(-COST_ONE / 4));
    assert_eq!(bigram.find(1, 0), None);
}

#[test]
fn file_keys_hold_word_id_and_cost() {
    let bits = (-1.5f32).to_bits();
    let key = encode_unigram_key("私/わたし".as_bytes(), 0x01_02ff, bits).unwrap();
    let mut expected = "私/わたし".as_bytes().to_vec();
    expected.extend_from_slice(&[0xff, 0x01, 0x02, 0xff, 0x00, 0x00, 0xc0, 0xbf]);
    assert_eq!(key, expected);
    assert_eq!(
        decode_unigram_key(&key),
        Some(("私/わたし".as_bytes().to_vec(), 0x01_02ff, bits))
    );
    // a payload of 0xff bytes is not taken for the end of the word
    let key = encode_unigram_key(b"a", 0xff_ffff, u32::MAX).unwrap();
    assert_eq!(decode_unigram_key(&key), Some((b"a".to_vec(), 0xff_ffff, u32::MAX)));
    assert_eq!(decode_unigram_key(&key[1..]), Some((vec![], 0xff_ffff, u32::MAX)));
    assert_eq!(decode_unigram_key(&key[2..]), None);
    assert_eq!(decode_unigram_key(&[b'a', 0, 1, 2, 3, 4, 5, 6, 7]), None);
    assert_eq!(encode_unigram_key(b"a", 0x100_0000, 0), None);
    let entry = encode_bigram_entry(1, 2, bits).unwrap();
    assert_eq!(entry, vec![0, 0, 1, 0, 0, 2, 0x00, 0x00, 0xc0, 0xbf]);
    assert_eq!(decode_bigram_entry(&entry), Some((1, 2, bits)));
    assert_eq!(decode_bigram_entry(&entry[..9]), None);
    assert_eq!(encode_bigram_entry(1, 0x100_0000, bits), None);
}
