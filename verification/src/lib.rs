//! Search in a corpus of named texts.
//!
//! A corpus is searched for a query in one of three ways: for the letters of
//! the query, for a regular expression, or in an index over the terms of the
//! documents. Each way returns the documents in which it finds the query with
//! the number of times it finds it there; the hits are ranked by falling
//! frequency, and hits of one frequency stay in the order of the corpus.
//!
//! The contracts are stated over the views of documents, indexes and hits.
//! What the `regex` crate computes is taken on trust and named in `pattern`.

pub mod benchmark;
pub mod dialogue;
pub mod dictionary;
pub mod hits;
pub mod indexing;
pub mod laws;
pub mod matching;
pub mod pattern;
pub mod ranking;
pub mod text;
pub mod tokenizer;
