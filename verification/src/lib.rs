//! A full-text search core.
//!
//! Documents are checked against a schema, their indexed fields are cut into
//! positioned tokens, and the tokens are entered into segments: sorted term
//! dictionaries with postings, next to the stored values of the documents.
//! A commit appends a segment and lists it; a reader works on the list of
//! segments that it captured. A query is parsed into terms and phrases,
//! matched against the postings of a snapshot and scored, and the best hits
//! come back in a fixed order.
//!
//! Every function is verified against a contract over mathematical models
//! of the data. The modules `laws` and `inverted` state what holds across
//! several operations.

pub mod analysis;
pub mod document;
pub mod index;
pub mod inverted;
pub mod laws;
pub mod matching;
pub mod math;
pub mod postings;
pub mod query;
pub mod ranking;
pub mod schema;
pub mod scoring;
pub mod search;
pub mod segment;
pub mod text;
pub mod tokenizer;
