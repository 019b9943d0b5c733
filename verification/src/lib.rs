//! Sequential IPv4 subnet allocation engine.
//!
//! Given a seed network address and a stream of per-subnet host-count
//! requests, the engine computes right-sized, non-overlapping subnets in
//! address order. The `ipv4` module holds the address value type with its
//! conversions between octets, 32-bit integers and dotted-decimal text; the
//! `subnet` module derives minimal prefix lengths and subnet ranges.

pub mod dec_text;
pub mod ipv4;
pub mod subnet;
