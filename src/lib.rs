//! Codec for the DNS wire format: a fixed-size message buffer with a cursor,
//! and readers and writers for headers, questions and resource records.
pub mod buffer;
pub mod dns;
pub mod error;
