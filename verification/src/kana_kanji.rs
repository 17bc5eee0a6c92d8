//! From a reading to the ways of writing it.
pub mod marisa_kana_kanji_dict;
