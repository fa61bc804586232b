//! Keyword ranking over tokenized text: a windowed co-occurrence matrix, the
//! word graph that TextRank scores, a deterministic ranking of scored terms, and
//! the cleaning of raw text into words, sentences, phrases and paragraphs.
pub mod centred;
pub mod co_occurrence;
pub mod document_processor;
pub mod ranking;
pub mod text;
pub mod text_rank;
pub mod tokenizer;
pub mod window;
pub mod words;
