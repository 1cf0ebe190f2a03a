//! An in-memory inverted search index over text documents.
//!
//! The library tokenises documents into lowercased word terms, builds a
//! family of indexes (document postings, positional postings, two-word
//! keys, segmented postings, term-frequency counts), answers a Boolean
//! and proximity query language over them, and persists an index in a
//! textual and a compressed binary form.

pub mod builder;
pub mod codec;
pub mod dictionary;
pub mod doc_index;
pub mod document;
pub mod lexer;
pub mod persist;
pub mod positional_index;
pub mod positions;
pub mod query;
pub mod segment_index;
pub mod segments;
pub mod termmap;
pub mod text;
pub mod tfidf;
pub mod two_word_index;
pub mod uintset;
pub mod unicode;

pub use document::DocumentId;
