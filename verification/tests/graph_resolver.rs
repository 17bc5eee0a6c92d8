use std::rc::Rc;

use libakaza::cost::{COST_ONE, PENALTY_UNKNOWN};
use libakaza::graph::graph_builder::{GraphBuilder, GraphError};
use libakaza::graph::graph_resolver::{GraphResolver, ViterbiError};
use libakaza::graph::segmenter::{SegmentationResult, Segmenter};
use libakaza::kana_kanji_dict::KanaKanjiDictBuilder;
use libakaza::kana_trie::KanaTrieBuilder;
use libakaza::lm::system_bigram::SystemBigramLMBuilder;
use libakaza::lm::system_unigram_lm::{SystemUnigramLMBuilder, DEFAULT_COST_EMPTY};
use libakaza::user_side_data::user_data::UserData;

fn cost(x: f64) -> i64 {
    (x * 4294967296.0) as i64
}

#[test]
fn test_resolver() {
    let mut builder = KanaTrieBuilder::default();
    builder.add(&"abc".to_string());
    builder.add(&"ab".to_string());
    builder.add(&"c".to_string());
    let kana_trie = builder.build().unwrap();

    let graph_builder = Segmenter::new(vec![kana_trie]);
    let graph = graph_builder.build("abc");
    assert_eq!(
        graph,
        SegmentationResult::new(vec![
            (2, vec!["ab".to_string()]),
            (3, vec!["abc".to_string(), "c".to_string()]),
        ])
    );

    // -1  0  1  2
    // BOS a  b  c
    let dict_builder = KanaKanjiDictBuilder::default();
    let dict = dict_builder.build();
    let system_unigram_lm_builder = SystemUnigramLMBuilder::default();
    let system_unigram_lm = system_unigram_lm_builder.build();
    let system_bigram_lm_builder = SystemBigramLMBuilder::default();
    let system_bigram_lm = system_bigram_lm_builder.build();
    let user_data = UserData::default();
    let graph_builder = GraphBuilder::new(
        dict,
        Rc::new(user_data),
        Rc::new(system_unigram_lm),
        Rc::new(system_bigram_lm),
    );
    let lattice = graph_builder.construct("abc", graph).unwrap();
    let resolver = GraphResolver::default();
    let result = resolver.viterbi(&lattice).unwrap();
    assert_eq!(result, "abc");
}

#[test]
fn test_kana_kanji() {
    let mut builder = KanaTrieBuilder::default();
    builder.add(&"わたし".to_string());
    builder.add(&"わた".to_string());
    builder.add(&"し".to_string());
    let kana_trie = builder.build().unwrap();

    let graph_builder = Segmenter::new(vec![kana_trie]);
    let graph = graph_builder.build("わたし");
    assert_eq!(
        graph,
        SegmentationResult::new(vec![
            (6, vec!["わた".to_string()]),
            (9, vec!["わたし".to_string(), "し".to_string()]),
        ])
    );

    let mut dict_builder = KanaKanjiDictBuilder::default();
    dict_builder.add("わたし", "私/渡し");

    let yomi = "わたし".to_string();

    let dict = dict_builder.build();
    let system_unigram_lm_builder = SystemUnigramLMBuilder::default();
    let system_unigram_lm = system_unigram_lm_builder.build();
    let system_bigram_lm_builder = SystemBigramLMBuilder::default();
    let system_bigram_lm = system_bigram_lm_builder.build();
    let mut user_data = UserData::default();
    user_data.record_entries(vec!["私/わたし".to_string()]);
    let graph_builder = GraphBuilder::new(
        dict,
        Rc::new(user_data),
        Rc::new(system_unigram_lm),
        Rc::new(system_bigram_lm),
    );
    let lattice = graph_builder.construct(&yomi, graph).unwrap();
    let resolver = GraphResolver::default();
    let result = resolver.viterbi(&lattice).unwrap();
    assert_eq!(result, "私");
}

#[test]
fn first_listed_surface_wins_a_tie() {
    let mut dict_builder = KanaKanjiDictBuilder::default();
    dict_builder.add("わたし", "渡し/私");
    let graph_builder = GraphBuilder::new(
        dict_builder.build(),
        Rc::new(UserData::default()),
        Rc::new(SystemUnigramLMBuilder::default().build()),
        Rc::new(SystemBigramLMBuilder::default().build()),
    );
    let seg = SegmentationResult::new(vec![(9, vec!["わたし".to_string()])]);
    let lattice = graph_builder.construct("わたし", seg).unwrap();
    assert_eq!(GraphResolver::default().viterbi(&lattice).unwrap(), "渡し");
}

#[test]
fn lattice_of_abc_has_the_expected_nodes() {
    let graph_builder = GraphBuilder::new(
        KanaKanjiDictBuilder::default().build(),
        Rc::new(UserData::default()),
        Rc::new(SystemUnigramLMBuilder::default().build()),
        Rc::new(SystemBigramLMBuilder::default().build()),
    );
    let seg = SegmentationResult::new(vec![
        (2, vec!["ab".to_string()]),
        (3, vec!["abc".to_string(), "c".to_string()]),
    ]);
    let lattice = graph_builder.construct("abc", seg).unwrap();
    assert_eq!(lattice.size(), 3);
    assert_eq!(lattice.list_count(), 5);
    assert_eq!(lattice.reading(), "abc");
    let unknown = DEFAULT_COST_EMPTY - PENALTY_UNKNOWN;
    assert_eq!(unknown, -22 * COST_ONE);
    assert_eq!(lattice.node_list(0).len(), 1);
    assert_eq!(lattice.node_list(0)[0].kanji, "__BOS__");
    assert_eq!(lattice.node_list(1).len(), 0);
    assert_eq!(lattice.node_list(2).len(), 1);
    assert_eq!(lattice.node_list(3).len(), 2);
    assert_eq!(lattice.node_list(4).len(), 1);
    assert_eq!(lattice.node_list(4)[0].kanji, "__EOS__");
    assert_eq!(lattice.node_list(4)[0].start_pos, 3);
    for k in 1..=3usize {
        for node in lattice.node_list(k) {
            // start and end of every word, and the length of its reading
            assert!(node.start_pos < k && k <= lattice.size() + 1);
            assert_eq!(k - node.start_pos, node.yomi.len());
            assert_eq!((k - 1) - node.start_pos + 1, node.yomi.len());
            assert!(!lattice.get_prev_nodes(node).is_empty());
            assert_eq!(node.key, format!("{}/{}", node.kanji, node.yomi));
            assert_eq!(node.word_id, None);
            assert_eq!(node.unigram_cost, unknown);
            assert_eq!(lattice.get_node_cost(node), unknown);
        }
    }
    let ab = &lattice.node_list(2)[0];
    let c = &lattice.node_list(3)[1];
    assert_eq!((ab.start_pos, ab.yomi.as_str(), ab.kanji.as_str()), (0, "ab", "ab"));
    assert_eq!((c.start_pos, c.yomi.as_str(), c.kanji.as_str()), (2, "c", "c"));
    // an edge that the bigram model does not know costs half the unigram cost
    assert_eq!(lattice.get_edge_cost(ab, c), -11 * COST_ONE);
}

#[test]
fn best_path_and_score_of_abc() {
    let graph_builder = GraphBuilder::new(
        KanaKanjiDictBuilder::default().build(),
        Rc::new(UserData::default()),
        Rc::new(SystemUnigramLMBuilder::default().build()),
        Rc::new(SystemBigramLMBuilder::default().build()),
    );
    let seg = SegmentationResult::new(vec![
        (2, vec!["ab".to_string()]),
        (3, vec!["abc".to_string(), "c".to_string()]),
    ]);
    let lattice = graph_builder.construct("abc", seg).unwrap();
    let best = GraphResolver::default().resolve(&lattice).unwrap();
    assert_eq!(best.nodes, vec![(0, 0), (3, 0), (4, 0)]);
    // two steps, each an unknown node (-22) over an unknown edge (-11)
    assert_eq!(best.score, 2 * (-33 * COST_ONE as i128));
    // recomputed along the nodes of the path
    let mut sum: i128 = 0;
    for pair in best.nodes.windows(2) {
        let from = &lattice.node_list(pair[0].0)[pair[0].1];
        let to = &lattice.node_list(pair[1].0)[pair[1].1];
        sum += lattice.get_edge_cost(from, to) as i128 + lattice.get_node_cost(to) as i128;
    }
    assert_eq!(sum, best.score);
}

#[test]
fn known_words_and_pairs_decide_the_path() {
    let mut unigram = SystemUnigramLMBuilder::default();
    let a = unigram.add(&"亜/あ".to_string(), cost(-3.0)).unwrap();
    let i = unigram.add(&"胃/い".to_string(), cost(-3.0)).unwrap();
    let i2 = unigram.add(&"井/い".to_string(), cost(-2.5)).unwrap();
    unigram.add(&"愛/あい".to_string(), cost(-6.5)).unwrap();
    let mut bigram = SystemBigramLMBuilder::default();
    bigram.add(a, i, cost(-0.25)).unwrap();
    bigram.add(a, i2, cost(-4.0)).unwrap();
    let mut dict = KanaKanjiDictBuilder::default();
    dict.add("あ", "亜");
    dict.add("い", "井/胃");
    dict.add("あい", "愛");
    let graph_builder = GraphBuilder::new(
        dict.build(),
        Rc::new(UserData::default()),
        Rc::new(unigram.build()),
        Rc::new(bigram.build()),
    );
    let seg = SegmentationResult::new(vec![
        (3, vec!["あ".to_string()]),
        (6, vec!["あい".to_string(), "い".to_string()]),
    ]);
    let lattice = graph_builder.construct("あい", seg).unwrap();
    let resolver = GraphResolver::default();
    // 亜 (-3 over an edge of -1.5), then 胃 (-3 over the known pair, -0.25)
    // beats 井 (-2.5 over the known pair, -4) and 愛 (-6.5 over -3.25).
    assert_eq!(resolver.viterbi(&lattice).unwrap(), "亜胃");
    let best = resolver.resolve(&lattice).unwrap();
    assert_eq!(best.nodes, vec![(0, 0), (3, 0), (6, 2), (7, 0)]);
    let clauses = resolver.viterbi_nbest(&lattice, 0).unwrap();
    assert_eq!(clauses.len(), 2);
    let first: Vec<&str> = clauses[0].iter().map(|c| c.kanji.as_str()).collect();
    assert_eq!(first, vec!["亜"]);
    let second: Vec<(&str, &str)> = clauses[1]
        .iter()
        .map(|c| (c.kanji.as_str(), c.yomi.as_str()))
        .collect();
    assert_eq!(second, vec![("胃", "い"), ("井", "い")]);
    assert_eq!(clauses[1][0].cost, (cost(-4.5) + cost(-3.25)) as i128);
    assert_eq!(clauses[1][1].cost, (cost(-4.5) + cost(-6.5)) as i128);
    assert_eq!((clauses[1][0].end_pos, clauses[1][0].index), (6, 2));
    let top = resolver.viterbi_nbest(&lattice, 1).unwrap();
    assert_eq!(top[1].len(), 1);
    assert_eq!(top[1][0].kanji, "胃");
}

#[test]
fn empty_surfaces_are_passed_over() {
    let mut dict = KanaKanjiDictBuilder::default();
    dict.add("あ", "/亜/");
    dict.add("い", "");
    let graph_builder = GraphBuilder::new(
        dict.build(),
        Rc::new(UserData::default()),
        Rc::new(SystemUnigramLMBuilder::default().build()),
        Rc::new(SystemBigramLMBuilder::default().build()),
    );
    assert_eq!(graph_builder.surfaces("あ"), vec!["亜"]);
    assert_eq!(graph_builder.surfaces("い"), vec!["い"]);
    assert_eq!(graph_builder.surfaces("う"), vec!["う"]);
}

#[test]
fn segments_must_lie_within_the_reading() {
    let graph_builder = GraphBuilder::new(
        KanaKanjiDictBuilder::default().build(),
        Rc::new(UserData::default()),
        Rc::new(SystemUnigramLMBuilder::default().build()),
        Rc::new(SystemBigramLMBuilder::default().build()),
    );
    for seg in [
        vec![(4usize, vec!["abcd".to_string()])],
        vec![(2, vec!["abc".to_string()])],
        vec![(2, vec!["".to_string()])],
    ] {
        let r = graph_builder.construct("abc", SegmentationResult::new(seg));
        assert!(matches!(r, Err(GraphError::SegmentOutOfRange)));
    }
}

#[test]
fn incomplete_lattices_are_refused() {
    let graph_builder = GraphBuilder::new(
        KanaKanjiDictBuilder::default().build(),
        Rc::new(UserData::default()),
        Rc::new(SystemUnigramLMBuilder::default().build()),
        Rc::new(SystemBigramLMBuilder::default().build()),
    );
    let resolver = GraphResolver::default();
    // "c" starts at 2, where nothing ends
    let seg = SegmentationResult::new(vec![(3, vec!["c".to_string()])]);
    let lattice = graph_builder.construct("abc", seg).unwrap();
    assert!(matches!(
        resolver.viterbi(&lattice),
        Err(ViterbiError::IncompleteSegmentation)
    ));
    assert!(matches!(
        resolver.resolve(&lattice),
        Err(ViterbiError::IncompleteSegmentation)
    ));
    assert!(matches!(
        resolver.viterbi_nbest(&lattice, 1),
        Err(ViterbiError::IncompleteSegmentation)
    ));
    // nothing ends at 3, where the reading ends
    let seg = SegmentationResult::new(vec![(2, vec!["ab".to_string()])]);
    let lattice = graph_builder.construct("abc", seg).unwrap();
    assert!(matches!(
        resolver.viterbi(&lattice),
        Err(ViterbiError::UnreachableEos)
    ));
}

#[test]
fn empty_reading_resolves_to_nothing() {
    let graph_builder = GraphBuilder::new(
        KanaKanjiDictBuilder::default().build(),
        Rc::new(UserData::default()),
        Rc::new(SystemUnigramLMBuilder::default().build()),
        Rc::new(SystemBigramLMBuilder::default().build()),
    );
    let lattice = graph_builder
        .construct("", SegmentationResult::new(vec![]))
        .unwrap();
    let resolver = GraphResolver::default();
    assert_eq!(resolver.viterbi(&lattice).unwrap(), "");
    assert_eq!(resolver.viterbi_nbest(&lattice, 0).unwrap().len(), 0);
}

fn best_by_enumeration(
    lattice: &libakaza::graph::lattice_graph::LatticeGraph,
    k: usize,
    j: usize,
) -> i128 {
    if k == 0 {
        return 0;
    }
    let node = &lattice.node_list(k)[j];
    let mut best: Option<i128> = None;
    for (i, prev) in lattice.get_prev_nodes(node).iter().enumerate() {
        let through = best_by_enumeration(lattice, node.start_pos, i)
            + lattice.get_edge_cost(prev, node) as i128
            + lattice.get_node_cost(node) as i128;
        if best.map_or(true, |b| through > b) {
            best = Some(through);
        }
    }
    best.unwrap()
}

#[test]
fn best_score_beats_every_other_path() {
    let mut state: u64 = 99;
    let mut next = |bound: u64| {
        state = state
            .wrapping_mul(6364136223846793005)
            .wrapping_add(1442695040888963407);
        (state >> 33) % bound
    };
    let readings = ["あ", "い", "う", "あい", "いう", "あいう"];
    let mut unigram = SystemUnigramLMBuilder::default();
    let mut dict = KanaKanjiDictBuilder::default();
    let mut ids: Vec<u32> = Vec::new();
    for (r, reading) in readings.iter().enumerate() {
        let mut surfaces: Vec<String> = Vec::new();
        for s in 0..3 {
            let surface = format!("{}{}", r, s);
            let c = cost(-(next(8000) as f64) / 1000.0);
            ids.push(
                unigram
                    .add(&format!("{}/{}", surface, reading), c)
                    .unwrap(),
            );
            surfaces.push(surface);
        }
        dict.add(reading, &surfaces.join("/"));
    }
    let mut bigram = SystemBigramLMBuilder::default();
    for _ in 0..60 {
        let a = ids[next(ids.len() as u64) as usize];
        let b = ids[next(ids.len() as u64) as usize];
        bigram
            .add(a, b, cost(-(next(5000) as f64) / 1000.0))
            .unwrap();
    }
    let mut user_data = UserData::default();
    user_data.record_entries(vec!["11/い".to_string(), "20/う".to_string()]);
    let graph_builder = GraphBuilder::new(
        dict.build(),
        Rc::new(user_data),
        Rc::new(unigram.build()),
        Rc::new(bigram.build()),
    );
    let mut trie = KanaTrieBuilder::default();
    for reading in readings {
        trie.add(&reading.to_string());
    }
    let seg = Segmenter::new(vec![trie.build().unwrap()]).build("あいう");
    let lattice = graph_builder.construct("あいう", seg).unwrap();
    let best = GraphResolver::default().resolve(&lattice).unwrap();
    let last = lattice.size() + 1;
    assert_eq!(best.score, best_by_enumeration(&lattice, last, 0));
    assert_eq!(best.nodes.first(), Some(&(0, 0)));
    assert_eq!(best.nodes.last(), Some(&(last, 0)));
    let surface: String = best.nodes[1..best.nodes.len() - 1]
        .iter()
        .map(|(k, j)| lattice.node_list(*k)[*j].kanji.clone())
        .collect();
    assert_eq!(GraphResolver::default().viterbi(&lattice).unwrap(), surface);
}
