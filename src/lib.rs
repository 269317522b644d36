//! Multi-venue order-book aggregation: book model, merge and top-of-book
//! summaries, venue frame decoding, and the decisions of the ingest loop.
pub mod decimal;
pub mod book;
pub mod aggregate;
pub mod json;
pub mod store;
pub mod venue;
pub mod wsapi;
pub mod restapi;
pub mod config;
pub mod ingest;
pub mod fanin;
