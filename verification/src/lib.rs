//! A term-based relevance index over a corpus of text documents.
//!
//! Documents are tokenized into normalized terms, collected into an inverted
//! index, and ranked against query terms by TF-IDF. Scores are kept exact:
//! a term frequency is a ratio of two counts and an inverse document
//! frequency is the logarithm of such a ratio, so every contract speaks of
//! integers only and callers evaluate the numbers in the precision they want.
//!
//! The parts, from the leaves up:
//!
//! - [`arena`]: the owner of the document texts of one build pass;
//! - [`text`], [`scanner`], [`crawler`], [`lexer`]: characters, byte
//!   offsets, and the two tokenizers;
//! - [`vocabulary`], [`term_counts`], [`postings`]: the term dictionary and
//!   the tables built on it;
//! - [`score`], [`computations`]: exact term frequencies, inverse document
//!   frequencies and their products;
//! - [`index_view`], [`inverted_index`], [`forward_index`]: the indexes and
//!   what their operations compute;
//! - [`codec`]: the persisted form;
//! - [`laws`]: what holds of every index and every query;
//! - [`utils`], [`commands`]: text from other formats, and the decisions of
//!   the interactive front end.

pub mod arena;
pub mod text;
pub mod scanner;
pub mod crawler;
pub mod lexer;
pub mod vocabulary;
pub mod term_counts;
pub mod score;
pub mod computations;
pub mod postings;
pub mod index_view;
pub mod codec;
pub mod inverted_index;
pub mod forward_index;
pub mod laws;
pub mod utils;
pub mod commands;
