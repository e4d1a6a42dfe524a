//! Verified core of a small network tool kit: BGP filter generation from
//! IRR data (prefix radix tree, AS-set expansion bookkeeping, vendor
//! printers) and DNS wire-format encoding, decoding and presentation.

pub mod text;
pub mod ipv6;
pub mod inet;
pub mod bgpq4;
pub mod dig;
pub mod ipmap;
