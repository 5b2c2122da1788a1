//! A minimal DNS engine: a binary codec for the DNS wire format and the
//! decision logic of a recursive/forwarding resolver.
//!
//! The codec reads and writes DNS messages, including compressed domain
//! names, over a fixed-capacity byte buffer; the resolver side interprets
//! responses (answers, referrals, glue records) and decides the next step
//! of an iterative lookup. Network transport is left to the caller.

pub mod buffer;
pub mod question;
pub mod packet;
pub mod record;
pub mod header;
pub mod laws;
pub mod qtype;
pub mod resolve;
pub mod rscode;

use vstd::prelude::*;

verus! {

/// The ways a codec operation can fail.
///
/// `OutOfBounds` signals a read or write past the buffer's limits
/// (malformed or truncated input), `TooManyJumps` a compression-pointer
/// chain longer than the fixed budget (adversarial input), and
/// `LabelTooLong` an attempt to encode a domain-name label of more than
/// 63 bytes (a caller error).
#[derive(Debug, Clone, Copy, PartialEq, Eq, Structural)]
pub enum DnsError {
    OutOfBounds,
    TooManyJumps,
    LabelTooLong,
}

} // verus!
