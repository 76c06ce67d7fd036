//! Verified IPv4 range containment.
//!
//! The library converts dotted-quad IPv4 text to and from 32-bit integers,
//! parses lines holding single addresses, dashed ranges or CIDR blocks into
//! inclusive integer ranges, and decides whether every address covered by one
//! collection of ranges is covered by another.

pub mod codec;
pub mod errors;
pub mod range;
pub mod subset;
pub mod text;
