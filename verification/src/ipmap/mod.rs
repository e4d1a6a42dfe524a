//! Ping sweeps of an IPv4 block: the addresses to probe, reading the
//! reports, and the block map of the results.

pub mod scanner;
pub mod display;
pub mod cli;
