//! A read-only reader for immutable time-series blocks: index-file parsing,
//! the symbol table, the postings iterator algebra and label-matcher queries.
pub mod block;
pub mod encoding;
pub mod error;
pub mod labels;
pub mod order;
pub mod postings;
pub mod querier;
pub mod reader;
pub mod symbols;
