//! Sylph: an experimental full-text store. Text is split into sentences and
//! words, words are mapped to integer ids, n-grams of ids are kept in flat
//! trie nodes, posting lists are compressed as gap lists, and documents are
//! accumulated in buckets that are flushed to disk when they grow too large.
pub mod config;
pub mod index;
pub mod tokenizer;
pub mod data;
pub mod error;
pub mod storage;
