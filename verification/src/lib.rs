//! A minimal line-oriented text search engine.
//!
//! [`config::resolve`] validates and copies positional arguments into an
//! immutable [`config::Config`]; [`search::search`] then returns every line of
//! a content buffer that contains the configured query, in source order.
//! Reading the content and displaying the result are the caller's business:
//! both functions are pure transforms on in-memory values.

pub mod config;
pub mod lines;
pub mod search;
