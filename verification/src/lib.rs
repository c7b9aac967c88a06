//! A codec for multicast-DNS (mDNS) datagrams.
//!
//! The crate decodes and encodes the RFC1035 message layout: a fixed
//! 96-bit header, queries, and resource records, including domain-name
//! label compression (back-references into the same datagram).  The
//! codec only ever sees an in-memory buffer; socket handling belongs to
//! the caller.  Malformed, truncated, or cyclically-compressed input is
//! rejected with a descriptive error and never panics or hangs.

pub mod bits;
pub mod error;
pub mod header;
pub mod name;
pub mod query;
pub mod resolver;
pub mod resource_record;
pub mod response;
pub mod sections;
