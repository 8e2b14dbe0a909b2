//! Retrieval core of a small browser: an in-memory inverted index, the
//! extraction of result records from a search-results page, and the typed
//! outcomes of fetching a page through a local rendering proxy.

pub mod text;
pub mod tokenizer;
pub mod indexer;
pub mod extractor;
pub mod fetch;
