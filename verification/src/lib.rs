//! A hosts-style name resolution backend: a lookup table built from
//! delimited text sources maps hostnames to IPv4/IPv6 addresses, and a
//! record writer packs one lookup result into a caller-sized buffer
//! using a fixed, offset-based layout.

pub mod addr;
pub mod resolve;
pub mod table;
pub mod text;
pub mod writer;
