//! DNS lookups: the wire format and the presentation of answers.

pub mod cli;
pub mod dns;
pub mod printer;
pub mod query;
pub mod trace;
