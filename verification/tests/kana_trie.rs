use libakaza::kana_trie::crawdad_kana_trie::{CrawdadFault, CrawdadKanaTrie, KanaTrieError};
use libakaza::kana_trie::trie_image::sound_image;
use libakaza::kana_trie::KanaTrieBuilder;

#[test]
fn hello() {
    let trie = CrawdadKanaTrie::build(vec![
        "わたし".to_string(),
        "わた".to_string(),
        "わし".to_string(),
        "ほげほげ".to_string(),
    ])
    .unwrap();
    assert_eq!(
        trie.common_prefix_search("わたしのきもち"),
        vec!("わた", "わたし")
    );
}

#[test]
fn empty_query_finds_nothing() {
    let trie = CrawdadKanaTrie::build(vec!["わた".to_string()]).unwrap();
    assert_eq!(trie.common_prefix_search(""), Vec::<String>::new());
}

#[test]
fn empty_trie_finds_nothing() {
    let trie = CrawdadKanaTrie::build(vec![]).unwrap();
    assert_eq!(trie.common_prefix_search("わたし"), Vec::<String>::new());
    let trie = CrawdadKanaTrie::default();
    assert_eq!(trie.common_prefix_search("わたし"), Vec::<String>::new());
}

#[test]
fn build_refuses_unfit_keys() {
    assert!(matches!(
        CrawdadKanaTrie::build(vec!["a".to_string(), "".to_string()]),
        Err(KanaTrieError::EmptyKey)
    ));
    assert!(matches!(
        CrawdadKanaTrie::build(vec!["a\u{ffff}".to_string()]),
        Err(KanaTrieError::EndMarker)
    ));
    assert!(matches!(
        CrawdadKanaTrie::from_outcome(Err(CrawdadFault::Input)),
        Err(KanaTrieError::DuplicateKey)
    ));
    assert!(matches!(
        CrawdadKanaTrie::from_outcome(Err(CrawdadFault::Scale)),
        Err(KanaTrieError::TooLarge)
    ));
}

#[test]
fn build_refuses_keys_that_are_too_long() {
    let fits: String = "あ".repeat(512);
    let long: String = "あ".repeat(513);
    let trie = CrawdadKanaTrie::build(vec![fits.clone(), "あ".to_string()]).unwrap();
    assert_eq!(trie.common_prefix_search(&long), vec!["あ".to_string(), fits]);
    assert!(matches!(
        CrawdadKanaTrie::build(vec!["あ".to_string(), long]),
        Err(KanaTrieError::TooLarge)
    ));
}

#[test]
fn query_is_read_up_to_the_end_marker() {
    let trie = CrawdadKanaTrie::build(vec!["ab".to_string(), "abc".to_string()]).unwrap();
    assert_eq!(trie.common_prefix_search("ab\u{ffff}c"), vec!["ab"]);
    assert_eq!(trie.common_prefix_search("abcd"), vec!["ab", "abc"]);
}

#[test]
fn prefix_lengths_count_characters() {
    let trie = CrawdadKanaTrie::build(vec!["わた".to_string(), "た".to_string()]).unwrap();
    let chars: Vec<char> = "わたし".chars().collect();
    assert_eq!(trie.common_prefix_lengths(&chars, 0), vec![2]);
    assert_eq!(trie.common_prefix_lengths(&chars, 1), vec![1]);
    assert_eq!(trie.common_prefix_lengths(&chars, 2), Vec::<usize>::new());
    assert_eq!(trie.common_prefix_lengths(&chars, 3), Vec::<usize>::new());
}

#[test]
fn saved_trie_searches_like_the_one_saved() {
    let keys = vec![
        "わたし".to_string(),
        "わた".to_string(),
        "わし".to_string(),
        "ほげほげ".to_string(),
    ];
    let trie = CrawdadKanaTrie::build(keys).unwrap();
    let bytes = trie.save();
    assert_eq!(bytes[0], 1);
    let loaded = CrawdadKanaTrie::load(&bytes).unwrap();
    for query in ["わたしのきもち", "わし", "ほげほげほげ", "", "x"] {
        assert_eq!(
            loaded.common_prefix_search(query),
            trie.common_prefix_search(query)
        );
    }
    assert_eq!(loaded.save(), bytes);
    let empty = CrawdadKanaTrie::default();
    assert_eq!(empty.save(), vec![0u8]);
    let loaded = CrawdadKanaTrie::load(&empty.save()).unwrap();
    assert_eq!(loaded.common_prefix_search("わたし"), Vec::<String>::new());
}

#[test]
fn builder_skips_repeated_readings() {
    let mut builder = KanaTrieBuilder::default();
    builder.add(&"abc".to_string());
    builder.add(&"ab".to_string());
    builder.add(&"abc".to_string());
    let trie = builder.build().unwrap();
    assert_eq!(trie.common_prefix_search("abcd"), vec!["ab", "abc"]);
}

#[test]
fn search_agrees_with_a_plain_scan_of_the_keys() {
    // keys and queries over a small alphabet, from a fixed linear congruence
    let mut state: u64 = 12345;
    let mut next = |bound: u64| {
        state = state
            .wrapping_mul(6364136223846793005)
            .wrapping_add(1442695040888963407);
        (state >> 33) % bound
    };
    let alphabet = ['あ', 'い', 'a', 'ん', '😀'];
    let mut word = |max: u64, next: &mut dyn FnMut(u64) -> u64| {
        let len = 1 + next(max);
        (0..len)
            .map(|_| alphabet[next(alphabet.len() as u64) as usize])
            .collect::<String>()
    };
    let mut builder = KanaTrieBuilder::default();
    let mut keys: Vec<String> = Vec::new();
    for _ in 0..200 {
        let key = word(4, &mut next);
        if !keys.contains(&key) {
            keys.push(key.clone());
        }
        builder.add(&key);
    }
    let trie = builder.build().unwrap();
    let loaded = CrawdadKanaTrie::load(&trie.save()).unwrap();
    for _ in 0..300 {
        let query = word(8, &mut next);
        let chars: Vec<char> = query.chars().collect();
        let mut expected: Vec<String> = Vec::new();
        for len in 1..=chars.len() {
            let prefix: String = chars[..len].iter().collect();
            if keys.contains(&prefix) {
                expected.push(prefix);
            }
        }
        assert_eq!(trie.common_prefix_search(&query), expected);
        assert_eq!(loaded.common_prefix_search(&query), expected);
    }
}

#[test]
fn corrupt_bytes_are_refused() {
    let trie = CrawdadKanaTrie::build(vec!["わたし".to_string(), "わた".to_string()]).unwrap();
    let bytes = trie.save();
    let refused = |bytes: &[u8]| matches!(CrawdadKanaTrie::load(bytes), Err(KanaTrieError::Corrupt));
    assert!(refused(&[]));
    assert!(refused(&[2]));
    assert!(refused(&[0, 0]));
    assert!(refused(&[1]));
    assert!(refused(&bytes[..bytes.len() - 1]));
    let mut longer = bytes.clone();
    longer.push(0);
    assert!(refused(&longer));
    // one node with base 5, and a table that gives `a` the code 1
    let mut image: Vec<u8> = vec![1];
    image.extend_from_slice(&98u32.to_le_bytes());
    for c in 0..98u32 {
        let code: u32 = if c == 97 { 1 } else { u32::MAX };
        image.extend_from_slice(&code.to_le_bytes());
    }
    image.extend_from_slice(&2u32.to_le_bytes());
    image.extend_from_slice(&1u32.to_le_bytes());
    image.extend_from_slice(&5u32.to_le_bytes());
    image.extend_from_slice(&0x7fff_ffffu32.to_le_bytes());
    assert!(refused(&image));
    // every single byte of the image changed: refused, or searched without harm
    for at in 1..bytes.len() {
        let mut changed = bytes.clone();
        changed[at] ^= 0x55;
        if let Ok(loaded) = CrawdadKanaTrie::load(&changed) {
            loaded.common_prefix_search("わたしのきもち");
            loaded.common_prefix_search("たわし");
        }
    }
}

#[test]
fn repeated_keys_count_once() {
    let trie = CrawdadKanaTrie::build(vec![
        "わた".to_string(),
        "わたし".to_string(),
        "わた".to_string(),
        "わたし".to_string(),
        "わた".to_string(),
    ])
    .unwrap();
    assert_eq!(
        trie.common_prefix_search("わたしのきもち"),
        vec!["わた", "わたし"]
    );
}

#[test]
fn every_built_trie_is_saved_in_a_sound_form() {
    let mut state: u64 = 2024;
    let mut next = |bound: u64| {
        state = state
            .wrapping_mul(6364136223846793005)
            .wrapping_add(1442695040888963407);
        (state >> 33) % bound
    };
    for round in 0..40u64 {
        let letters = 1 + next(60);
        let count = 1 + next(300);
        let longest = 1 + next(12);
        let mut keys: Vec<String> = Vec::new();
        for _ in 0..count {
            let len = 1 + next(longest);
            let key: String = (0..len)
                .map(|_| char::from_u32(0x3041 + next(letters) as u32 * (1 + round % 3) as u32).unwrap())
                .collect();
            keys.push(key);
        }
        let trie = CrawdadKanaTrie::build(keys.clone()).unwrap();
        let bytes = trie.save();
        assert!(sound_image(&bytes[1..]));
        let loaded = CrawdadKanaTrie::load(&bytes).unwrap();
        assert_eq!(loaded.save(), bytes);
        for key in keys.iter().take(20) {
            let found = loaded.common_prefix_search(key);
            assert_eq!(found.last(), Some(key));
            assert_eq!(found, trie.common_prefix_search(key));
        }
    }
}
