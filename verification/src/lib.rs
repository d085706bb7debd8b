//! A sentence bank for language study.
//!
//! Raw text is segmented into delimiter-terminated sentences, each sentence is
//! reduced to word roots by an external morphological analyzer whose line
//! output is parsed here, and sentences are kept in a store indexed by the
//! words they contain, so that a learner can ask for every sentence that uses
//! a given word.

pub mod extract;
pub mod pipeline;
pub mod segment;
pub mod store;
pub mod text;
