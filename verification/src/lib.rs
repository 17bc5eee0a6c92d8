//! Kana-to-kanji conversion: a reading in hiragana goes in, the most probable
//! mixed kanji/kana rendering comes out.
//!
//! The pipeline is: romaji transliteration ([`romkan`]), segmentation of the
//! reading along the kana tries ([`graph::segmenter`]), expansion into a
//! lattice of candidate words with costs ([`graph::graph_builder`]), and a
//! best-path search through the lattice ([`graph::graph_resolver`]).
//! [`akaza_builder`] puts the pipeline together, and [`context`] keeps the
//! state of an input session on top of it.
//!
//! Costs are fixed-point numbers, and a larger cost is a better one (see
//! [`cost`]). Positions in a reading are byte offsets into its UTF-8 form
//! (see [`text`]).
//!
//! The kana trie is a `crawdad::Trie`. What is proved of the code that uses
//! it rests on the contracts that [`kana_trie::crawdad_kana_trie`] states
//! for that crate's functions.
pub mod akaza_builder;
pub mod context;
pub mod cost;
pub mod graph;
pub mod ibus;
pub mod kana_kanji;
pub mod kana_kanji_dict;
pub mod kana_trie;
pub mod lm;
pub mod romkan;
pub mod storage;
pub mod text;
pub mod user_side_data;
