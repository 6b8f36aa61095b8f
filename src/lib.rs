//! Query planning and evaluation for a full-text search index: a query string
//! becomes a boolean tree of term-matching leaves, and that tree is evaluated
//! against a term dictionary and postings lists into an ordered set of
//! document ids.
pub mod operation;
pub mod sets;
pub mod index;
pub mod dictionary;
pub mod evaluator;
pub mod tokenizer;
pub mod builder;
