//! A minimal DNS message engine: decoding a query's header and first
//! question, and building the reply bytes, for UDP and length-prefixed TCP.

pub mod bytes;
pub mod header;
pub mod name;
pub mod question;
pub mod answer;
pub mod processor;
