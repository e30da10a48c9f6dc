//! A small file search index: path tokenization, an inverted index from
//! tokens to documents, and the FIF binary format that stores it.

pub mod document;
pub mod fif;
pub mod index;
pub mod tokenizer;
