//! The language models of the system dictionary.
pub mod codec;
pub mod corpus;
pub mod system_bigram;
pub mod system_unigram_lm;
pub mod word_index;
