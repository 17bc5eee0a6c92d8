use libakaza::cost::{COST_MAX, COST_ONE};
use libakaza::lm::system_unigram_lm::{StoredWord, SystemUnigramLM, UnigramLoadError};
use libakaza::storage::{decode_keys, encode_keys};

fn stored(id: u32, word: &str, cost: i64) -> StoredWord {
    StoredWord {
        id,
        word: word.to_string(),
        cost,
    }
}

#[test]
fn keys_are_written_with_their_lengths() {
    let keys = vec![b"ab".to_vec(), vec![], vec![0xff, 0x00, 0x01]];
    let bytes = encode_keys(&keys).unwrap();
    assert_eq!(
        bytes,
        vec![2, 0, 0, 0, b'a', b'b', 0, 0, 0, 0, 3, 0, 0, 0, 0xff, 0x00, 0x01]
    );
    assert_eq!(decode_keys(&bytes), Some(keys));
    assert_eq!(encode_keys(&vec![]), Some(vec![]));
    assert_eq!(decode_keys(&[]), Some(vec![]));
}

#[test]
fn same_keys_give_the_same_file() {
    let keys: Vec<Vec<u8>> = ["わたし\t私/渡し", "たなか\t田中", ""]
        .iter()
        .map(|k| k.as_bytes().to_vec())
        .collect();
    let once = encode_keys(&keys).unwrap();
    let twice = encode_keys(&decode_keys(&once).unwrap()).unwrap();
    assert_eq!(once, twice);
    let long = vec![vec![7u8; 70_000]];
    assert_eq!(decode_keys(&encode_keys(&long).unwrap()), Some(long));
}

#[test]
fn files_that_are_cut_off_are_refused() {
    assert_eq!(decode_keys(&[2, 0, 0]), None);
    assert_eq!(decode_keys(&[2, 0, 0, 0, b'a']), None);
    assert_eq!(decode_keys(&[1, 0, 0, 0, b'a', 0]), None);
    assert_eq!(decode_keys(&[0xff, 0xff, 0xff, 0xff, 1, 2, 3]), None);
    assert_eq!(decode_keys(&[1, 0, 0, 0, b'a']), Some(vec![vec![b'a']]));
}

#[test]
fn stored_words_keep_their_ids() {
    let lm = SystemUnigramLM::from_entries(vec![
        stored(2, "c/c", -3 * COST_ONE),
        stored(0, "a/a", -COST_ONE),
        stored(1, "b/b", -2 * COST_ONE),
    ])
    .unwrap();
    assert_eq!(lm.num_keys(), 3);
    assert_eq!(lm.find("a/a"), Some((0, -COST_ONE)));
    assert_eq!(lm.find("b/b"), Some((1, -2 * COST_ONE)));
    assert_eq!(lm.find("c/c"), Some((2, -3 * COST_ONE)));
    assert_eq!(lm.get_default_cost(), -4 * COST_ONE);
    assert_eq!(lm.word_at(1), Some((&"b/b".to_string(), -2 * COST_ONE)));
    assert_eq!(lm.word_at(3), None);
    assert_eq!(
        SystemUnigramLM::from_entries(vec![]).unwrap().num_keys(),
        0
    );
}

#[test]
fn stored_words_with_faults_are_refused() {
    let load = |entries: Vec<StoredWord>| SystemUnigramLM::from_entries(entries).err();
    assert_eq!(
        load(vec![stored(0, "a/a", 0), stored(2, "b/b", 0)]),
        Some(UnigramLoadError::IdOutOfRange)
    );
    assert_eq!(
        load(vec![stored(0, "a/a", 0), stored(0, "b/b", 0)]),
        Some(UnigramLoadError::DuplicateId)
    );
    assert_eq!(
        load(vec![stored(1, "a/a", 0), stored(0, "a/a", 0)]),
        Some(UnigramLoadError::DuplicateWord)
    );
    assert_eq!(
        load(vec![stored(0, "a/a", COST_MAX + 1)]),
        Some(UnigramLoadError::CostOutOfRange)
    );
}

#[test]
fn too_many_stored_words_are_refused() {
    let mut entries: Vec<StoredWord> = Vec::new();
    for id in 0..=0x80_0000u32 {
        entries.push(StoredWord {
            id,
            word: String::new(),
            cost: 0,
        });
    }
    assert_eq!(
        SystemUnigramLM::from_entries(entries).err(),
        Some(UnigramLoadError::TooManyWords)
    );
}
