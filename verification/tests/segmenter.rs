use libakaza::graph::segmenter::{SegmentationResult, Segmenter};
use libakaza::kana_trie::KanaTrieBuilder;

fn segmenter_of(keys: &[&str]) -> Segmenter {
    let mut builder = KanaTrieBuilder::default();
    for key in keys {
        builder.add(&key.to_string());
    }
    Segmenter::new(vec![builder.build().unwrap()])
}

#[test]
fn segments_of_abc() {
    let graph = segmenter_of(&["abc", "ab", "c"]).build("abc");
    assert_eq!(
        graph,
        SegmentationResult::new(vec![
            (2, vec!["ab".to_string()]),
            (3, vec!["abc".to_string(), "c".to_string()]),
        ])
    );
}

#[test]
fn segments_are_keyed_by_byte_offset() {
    let graph = segmenter_of(&["わたし", "わた", "し"]).build("わたし");
    assert_eq!(
        graph,
        SegmentationResult::new(vec![
            (6, vec!["わた".to_string()]),
            (9, vec!["わたし".to_string(), "し".to_string()]),
        ])
    );
}

#[test]
fn unknown_character_becomes_a_segment() {
    let graph = segmenter_of(&["た"]).build("わたし");
    assert_eq!(
        graph,
        SegmentationResult::new(vec![
            (3, vec!["わ".to_string()]),
            (6, vec!["た".to_string()]),
            (9, vec!["し".to_string()]),
        ])
    );
}

#[test]
fn empty_reading_has_no_segments() {
    let graph = segmenter_of(&["た"]).build("");
    assert_eq!(graph, SegmentationResult::new(vec![]));
    assert_eq!(graph.len(), 0);
}

#[test]
fn positions_are_visited_breadth_first() {
    // From 0 the walk reaches 1 and 3; from 1 it reaches 2 and 4; position 3
    // is visited before position 2, so the segment from 3 to 4 is found
    // before the one from 2 to 4.
    let graph = segmenter_of(&["a", "abc", "b", "bcd", "d", "cd"]).build("abcd");
    assert_eq!(
        graph,
        SegmentationResult::new(vec![
            (1, vec!["a".to_string()]),
            (2, vec!["b".to_string()]),
            (3, vec!["abc".to_string()]),
            (4, vec!["bcd".to_string(), "d".to_string(), "cd".to_string()]),
        ])
    );
}

#[test]
fn several_tries_count_as_one() {
    let mut first = KanaTrieBuilder::default();
    first.add(&"ab".to_string());
    let mut second = KanaTrieBuilder::default();
    second.add(&"ab".to_string());
    second.add(&"a".to_string());
    let segmenter = Segmenter::new(vec![first.build().unwrap(), second.build().unwrap()]);
    let graph = segmenter.build("ab");
    assert_eq!(
        graph,
        SegmentationResult::new(vec![
            (1, vec!["a".to_string()]),
            (2, vec!["ab".to_string(), "b".to_string()]),
        ])
    );
    assert_eq!(graph.end_of(1), 2);
    assert_eq!(graph.words_of(1), &vec!["ab".to_string(), "b".to_string()]);
}

#[test]
fn segmentation_agrees_with_a_plain_walk() {
    let keys = ["あ", "あい", "いう", "う", "うえお", "お", "えお", "かき"];
    let segmenter = segmenter_of(&keys);
    for yomi in ["あいうえお", "あいかきく", "くくく", "うえおあい", "あ", "いうえおか"] {
        let chars: Vec<char> = yomi.chars().collect();
        let n = chars.len();
        let mut lists: Vec<Vec<String>> = vec![Vec::new(); n + 1];
        let mut queue: Vec<usize> = vec![0];
        let mut head = 0;
        while head < queue.len() {
            let s = queue[head];
            head += 1;
            let mut ends: Vec<usize> = (s + 1..=n)
                .filter(|e| keys.contains(&chars[s..*e].iter().collect::<String>().as_str()))
                .collect();
            if ends.is_empty() && s < n {
                ends.push(s + 1);
            }
            for e in ends {
                lists[e].push(chars[s..e].iter().collect());
                if !queue.contains(&e) {
                    queue.push(e);
                }
            }
        }
        let mut expected: Vec<(usize, Vec<String>)> = Vec::new();
        for e in 1..=n {
            if !lists[e].is_empty() {
                let offset = chars[..e].iter().map(|c| c.len_utf8()).sum();
                expected.push((offset, lists[e].clone()));
            }
        }
        assert_eq!(segmenter.build(yomi), SegmentationResult::new(expected));
    }
}
