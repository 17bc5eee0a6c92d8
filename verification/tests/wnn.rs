use libakaza::akaza_builder::{Akaza, AkazaBuilder, AkazaError};
use libakaza::graph::graph_resolver::GraphResolver;
use libakaza::graph::segmenter::SegmentationResult;
use libakaza::kana_kanji_dict::KanaKanjiDictBuilder;
use libakaza::kana_trie::KanaTrieBuilder;
use libakaza::lm::system_bigram::SystemBigramLMBuilder;
use libakaza::lm::system_unigram_lm::SystemUnigramLMBuilder;
use libakaza::user_side_data::user_data::UserData;

fn cost(x: f64) -> i64 {
    (x * 4294967296.0) as i64
}

/// A small system dictionary with the words of the two sentences below and
/// some words that compete with them.
fn load_akaza() -> Akaza {
    let words: Vec<(&str, &str, f64)> = vec![
        ("わたし", "私", -3.2),
        ("わたし", "渡し", -5.1),
        ("わた", "綿", -5.5),
        ("し", "死", -4.6),
        ("し", "氏", -4.2),
        ("の", "の", -1.4),
        ("の", "野", -4.9),
        ("なまえ", "名前", -3.6),
        ("な", "名", -4.4),
        ("な", "菜", -5.2),
        ("まえ", "前", -3.4),
        ("は", "は", -1.6),
        ("は", "歯", -4.8),
        ("なかの", "中野", -4.3),
        ("なか", "中", -3.3),
        ("なか", "仲", -4.7),
        ("です", "です", -2.1),
        ("で", "で", -1.9),
        ("で", "出", -4.5),
        ("す", "酢", -5.4),
        ("す", "巣", -5.3),
        ("ろうどうしゃ", "労働者", -4.1),
        ("ろうどう", "労働", -3.9),
        ("ろう", "労", -5.0),
        ("どう", "同", -3.5),
        ("しゃ", "者", -4.0),
        ("しゃ", "車", -4.1),
        ("さいがい", "災害", -4.2),
        ("さい", "際", -3.8),
        ("がい", "外", -4.0),
        ("ほしょう", "保証", -4.3),
        ("ほしょう", "補償", -4.4),
        ("ほしょう", "保障", -4.5),
        ("ほ", "帆", -5.6),
        ("しょう", "賞", -3.9),
        ("ほけん", "保険", -4.0),
        ("けん", "県", -3.2),
        ("ほう", "方", -3.3),
        ("ほう", "法", -3.5),
        ("ほけんほう", "保険法", -5.2),
    ];
    let mut trie = KanaTrieBuilder::default();
    let mut unigram = SystemUnigramLMBuilder::default();
    let mut surfaces: Vec<(String, Vec<String>)> = Vec::new();
    for (yomi, kanji, c) in &words {
        trie.add(&yomi.to_string());
        unigram
            .add(&format!("{}/{}", kanji, yomi), cost(*c))
            .unwrap();
        match surfaces.iter_mut().find(|(y, _)| y == yomi) {
            Some((_, list)) => list.push(kanji.to_string()),
            None => surfaces.push((yomi.to_string(), vec![kanji.to_string()])),
        }
    }
    let mut dict = KanaKanjiDictBuilder::default();
    for (yomi, list) in &surfaces {
        dict.add(yomi, &list.join("/"));
    }
    let unigram = unigram.build();
    let mut bigram = SystemBigramLMBuilder::default();
    let id = |word: &str| unigram.find(word).unwrap().0;
    bigram
        .add(id("災害/さいがい"), id("補償/ほしょう"), cost(-0.4))
        .unwrap();
    bigram
        .add(id("補償/ほしょう"), id("保険/ほけん"), cost(-0.5))
        .unwrap();
    bigram
        .add(id("保険/ほけん"), id("法/ほう"), cost(-0.3))
        .unwrap();
    bigram
        .add(id("は/は"), id("中野/なかの"), cost(-1.0))
        .unwrap();
    AkazaBuilder::default()
        .kana_trie(trie.build().unwrap())
        .dict(dict.build())
        .unigram(unigram)
        .bigram(bigram.build())
        .user_data(UserData::default())
        .build()
}

fn test(yomi: &str, kanji: &str) {
    let got = load_akaza().convert_to_string(yomi).unwrap();
    assert_eq!(got, kanji);
}

#[test]
fn test_wnn() {
    test("わたしのなまえはなかのです", "私の名前は中野です")
}

#[test]
fn test_working() {
    test(
        "ろうどうしゃさいがいほしょうほけんほう",
        "労働者災害補償保険法",
    )
}

#[test]
fn empty_reading_converts_to_nothing() {
    let akaza = load_akaza();
    assert_eq!(akaza.convert_to_string("").unwrap(), "");
    assert_eq!(akaza.convert("", None).unwrap().len(), 0);
}

#[test]
fn unknown_text_is_left_as_it_is() {
    let akaza = load_akaza();
    assert_eq!(akaza.convert_to_string("xyz").unwrap(), "xyz");
    assert_eq!(
        AkazaBuilder::default()
            .build()
            .convert_to_string("わたし")
            .unwrap(),
        "わたし"
    );
}

#[test]
fn conversion_of_a_reading_is_never_empty() {
    let akaza = load_akaza();
    for yomi in ["わ", "わたし", "のの", "x", "ほけんのほう"] {
        assert!(!akaza.convert_to_string(yomi).unwrap().is_empty());
    }
}

#[test]
fn clauses_list_the_ways_of_writing_them() {
    let akaza = load_akaza();
    let clauses = akaza.convert("わたしのなまえ", None).unwrap();
    let firsts: Vec<&str> = clauses.iter().map(|c| c[0].kanji.as_str()).collect();
    assert_eq!(firsts, vec!["私", "の", "名前"]);
    let ways: Vec<&str> = clauses[0].iter().map(|c| c.kanji.as_str()).collect();
    assert_eq!(ways[0], "私");
    assert!(ways.contains(&"渡し"));
    for clause in &clauses {
        for pair in clause.windows(2) {
            assert!(pair[0].cost >= pair[1].cost);
        }
    }
}

#[test]
fn forced_segmentation_is_followed() {
    let akaza = load_akaza();
    let forced = SegmentationResult::new(vec![
        (6, vec!["わた".to_string()]),
        (9, vec!["し".to_string()]),
    ]);
    let clauses = akaza.convert("わたし", Some(forced)).unwrap();
    let firsts: Vec<&str> = clauses.iter().map(|c| c[0].kanji.as_str()).collect();
    assert_eq!(firsts, vec!["綿", "氏"]);
}

#[test]
fn forced_segmentation_can_fail() {
    let akaza = load_akaza();
    let beyond = SegmentationResult::new(vec![(12, vec!["わたしの".to_string()])]);
    assert!(matches!(
        akaza.convert("わたし", Some(beyond)),
        Err(AkazaError::SegmentOutOfRange)
    ));
    let gap = SegmentationResult::new(vec![(9, vec!["し".to_string()])]);
    assert!(matches!(
        akaza.convert("わたし", Some(gap)),
        Err(AkazaError::IncompleteSegmentation)
    ));
    let short = SegmentationResult::new(vec![(6, vec!["わた".to_string()])]);
    assert!(matches!(
        akaza.convert("わたし", Some(short)),
        Err(AkazaError::UnreachableEos)
    ));
}

#[test]
fn learning_changes_the_choice() {
    let mut akaza = load_akaza();
    assert_eq!(akaza.convert_to_string("ほしょう").unwrap(), "保証");
    akaza.learn(vec!["保障/ほしょう".to_string()]);
    assert_eq!(akaza.convert_to_string("ほしょう").unwrap(), "保障");
    // much later the bonus has faded away
    akaza.set_now(100 * 2_592_000);
    assert_eq!(akaza.convert_to_string("ほしょう").unwrap(), "保証");
}

#[test]
fn clauses_read_the_reading() {
    let akaza = load_akaza();
    for yomi in [
        "わたしのなまえはなかのです",
        "ろうどうしゃさいがいほしょうほけんほう",
        "xわたしy",
        "ほ",
    ] {
        let clauses = akaza.convert(yomi, None).unwrap();
        let read: String = clauses.iter().map(|c| c[0].yomi.as_str()).collect();
        assert_eq!(read, yomi);
    }
}

#[test]
fn learning_raises_the_paths_through_the_word() {
    let mut akaza = load_akaza();
    let score_of = |akaza: &Akaza, nodes: &[(usize, usize)]| {
        let lattice = akaza.lattice("ほしょう", None).unwrap();
        let mut sum: i128 = 0;
        for pair in nodes.windows(2) {
            let from = &lattice.node_list(pair[0].0)[pair[0].1];
            let to = &lattice.node_list(pair[1].0)[pair[1].1];
            sum += lattice.get_edge_cost(from, to) as i128 + lattice.get_node_cost(to) as i128;
        }
        sum
    };
    let lattice = akaza.lattice("ほしょう", None).unwrap();
    let last = lattice.size() + 1;
    let place = |kanji: &str| {
        lattice
            .node_list(12)
            .iter()
            .position(|n| n.kanji == kanji)
            .unwrap()
    };
    let through = vec![(0, 0), (12, place("保障")), (last, 0)];
    let beside = vec![(0, 0), (12, place("保証")), (last, 0)];
    let (through_before, beside_before) = (score_of(&akaza, &through), score_of(&akaza, &beside));
    assert_eq!(
        GraphResolver::default().resolve(&lattice).unwrap().nodes,
        beside
    );
    akaza.learn(vec!["保障/ほしょう".to_string()]);
    assert!(score_of(&akaza, &through) > through_before);
    assert_eq!(score_of(&akaza, &beside), beside_before);
}
