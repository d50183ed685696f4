//! Term-frequency indexing and TF-IDF ranking of text documents.
//!
//! A corpus of documents is turned into an [`index::Index`], which holds for
//! every document, by its path, how often each term occurs in it. The index
//! can be persisted and loaded again, and its documents can be ranked against
//! a free-text query.
//!
//! * [`lexer`] splits text into tokens, and [`text`] folds their case.
//! * [`document`] counts the terms of one document.
//! * [`markup`] extracts the text of a markup document.
//! * [`index`] gathers the documents of a corpus.
//! * [`format`] defines the persisted form of an index, and [`store`] encodes
//!   and decodes it; [`decimal`] is the notation of its numbers.
//! * [`score`] scores one document against a query, and [`rank`] orders the
//!   documents of an index by score; [`order`] is the order of paths by which
//!   equal scores are told apart.
//! * [`query`] searches a persisted index.
//! * [`error`] names what can go wrong.
//!
//! Everything here works on values in memory. Reading and writing files, and
//! the natural logarithm from which inverse document frequencies come, are
//! the caller's part.

pub mod decimal;
pub mod document;
pub mod error;
pub mod format;
pub mod index;
pub mod lexer;
pub mod markup;
pub mod order;
pub mod query;
pub mod rank;
pub mod score;
pub mod store;
pub mod text;
