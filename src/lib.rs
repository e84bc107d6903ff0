//! Order-book aggregation for one instrument across two venues: decimal prices, the
//! parser of venue frames, sorting and merging of books, the hub that holds each venue's
//! latest book, bounded subscriber queues, and the decisions of an upstream session.

pub mod book;
pub mod decimal;
pub mod hub;
pub mod json;
pub mod laws;
pub mod parser;
pub mod session;
