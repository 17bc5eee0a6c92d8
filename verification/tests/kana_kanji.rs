use std::collections::HashMap;

use libakaza::kana_kanji::marisa_kana_kanji_dict::{DictError, MarisaKanaKanjiDict};
use libakaza::text::{find_char, split_from};
use libakaza::kana_kanji_dict::KanaKanjiDictBuilder;

#[test]
fn write_read() {
    let dict = MarisaKanaKanjiDict::build(
        HashMap::from([("たなか".to_string(), vec!["田中".to_string()])])
            .into_iter()
            .collect(),
    );

    assert_eq!(dict.get("たなか"), Some(vec!["田中".to_string()]));
}

#[test]
fn absent_reading_has_no_surfaces() {
    let dict = MarisaKanaKanjiDict::build(vec![(
        "たなか".to_string(),
        vec!["田中".to_string()],
    )]);
    assert_eq!(dict.get("たな"), None);
    assert_eq!(dict.get("たなかさん"), None);
    assert_eq!(dict.get(""), None);
    assert_eq!(MarisaKanaKanjiDict::default().get("たなか"), None);
}

#[test]
fn surfaces_keep_their_order() {
    let dict = MarisaKanaKanjiDict::build(vec![
        (
            "わたし".to_string(),
            vec!["私".to_string(), "渡し".to_string(), "ワタシ".to_string()],
        ),
        ("わた".to_string(), vec!["綿".to_string()]),
        ("わたし".to_string(), vec!["わたし".to_string()]),
    ]);
    assert_eq!(
        dict.get("わたし"),
        Some(vec![
            "私".to_string(),
            "渡し".to_string(),
            "ワタシ".to_string()
        ])
    );
    assert_eq!(dict.get("わた"), Some(vec!["綿".to_string()]));
    assert_eq!(dict.yomis(), vec!["わたし", "わた", "わたし"]);
}

#[test]
fn stored_keys_are_read_back() {
    let dict = MarisaKanaKanjiDict::load(vec![
        "たなか\t田中/棚か".to_string(),
        "よみ\t".to_string(),
        "\tx".to_string(),
    ])
    .unwrap();
    assert_eq!(
        dict.get("たなか"),
        Some(vec!["田中".to_string(), "棚か".to_string()])
    );
    assert_eq!(dict.get("よみ"), Some(vec!["".to_string()]));
    assert_eq!(dict.get(""), Some(vec!["x".to_string()]));
    assert_eq!(dict.yomis(), vec!["たなか", "よみ", ""]);
    assert!(matches!(
        MarisaKanaKanjiDict::load(vec!["たなか\t田中".to_string(), "たなか".to_string()]),
        Err(DictError::MissingSeparator)
    ));
}

#[test]
fn builder_writes_the_stored_form() {
    let mut builder = KanaKanjiDictBuilder::default();
    builder.add("わたし", "私/渡し");
    builder.add("a", "");
    let dict = builder.build();
    assert_eq!(
        dict.get("わたし"),
        Some(vec!["私".to_string(), "渡し".to_string()])
    );
    assert_eq!(dict.get("a"), Some(vec!["".to_string()]));
    assert_eq!(dict.yomis(), vec!["わたし", "a"]);
}

#[test]
fn split_gives_one_piece_more_than_separators() {
    let chars: Vec<char> = "a/bc//d/".chars().collect();
    assert_eq!(split_from(&chars, 0, '/'), vec!["a", "bc", "", "d", ""]);
    assert_eq!(split_from(&chars, 2, '/'), vec!["bc", "", "d", ""]);
    assert_eq!(split_from(&chars, 8, '/'), vec![""]);
    assert_eq!(split_from(&chars, 0, 'x'), vec!["a/bc//d/"]);
    assert_eq!(find_char(&chars, 0, '/'), 1);
    assert_eq!(find_char(&chars, 2, '/'), 4);
    assert_eq!(find_char(&chars, 0, 'x'), 8);
}
