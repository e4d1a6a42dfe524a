//! BGP filter generation: prefixes and their radix tree, expansion
//! bookkeeping, configuration and the vendor printers.

pub mod prefix;
pub mod config;
pub mod expander;
pub mod printer;
pub mod irrd;
pub mod expansion;
pub mod cli;
