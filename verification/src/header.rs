//! The fixed header in front of every event.

use vstd::prelude::*;
use crate::bytes::{fits, in_bounds, le_at, lemma_le_at_bound, lemma_pow256_values, read_le};
use crate::error::BinlogError;

verus! {

/// Number of bytes of the fixed header in front of every event.
pub const HEADER_LENGTH: usize = 19;

/// The fixed header in front of every event.
#[derive(Debug, Clone, Copy, PartialEq, Eq, Structural)]
pub struct EventHeader {
    /// Seconds since the epoch at which the event was written.
    pub timestamp: u32,
    /// Code of the event's type.
    pub event_type: u8,
    /// Id of the server that wrote the event.
    pub server_id: u32,
    /// Length of the whole event: header, body and checksum.
    pub event_length: u32,
    /// Position in the log of the event that follows.
    pub next_event_position: u32,
    pub event_flags: u16,
}

/// The header that the 19 bytes of `s` from `pos` on encode: little-endian
/// fields in the order timestamp (4 bytes), type code (1), server id (4),
/// event length (4), next position (4), flags (2).
pub open spec fn header_at(s: Seq<u8>, pos: int) -> EventHeader {
    EventHeader {
        timestamp: le_at(s, pos, 4) as u32,
        event_type: s[pos + 4],
        server_id: le_at(s, pos + 5, 4) as u32,
        event_length: le_at(s, pos + 9, 4) as u32,
        next_event_position: le_at(s, pos + 13, 4) as u32,
        event_flags: le_at(s, pos + 17, 2) as u16,
    }
}

impl EventHeader {
    /// Decodes the header at `pos`. Fails with `Protocol` exactly when fewer
    /// than 19 bytes are left there.
    pub fn parse(buf: &[u8], pos: usize) -> (r: Result<EventHeader, BinlogError>)
        ensures
            r == if in_bounds(buf@, pos as int, 19) {
                Ok::<EventHeader, BinlogError>(header_at(buf@, pos as int))
            } else {
                Err(BinlogError::Protocol)
            },
    {
        if !fits(buf, pos, HEADER_LENGTH) {
            return Err(BinlogError::Protocol);
        }
        proof {
            lemma_pow256_values();
            lemma_le_at_bound(buf@, pos as int, 4);
            lemma_le_at_bound(buf@, pos + 5, 4);
            lemma_le_at_bound(buf@, pos + 9, 4);
            lemma_le_at_bound(buf@, pos + 13, 4);
            lemma_le_at_bound(buf@, pos + 17, 2);
        }
        Ok(
            EventHeader {
                timestamp: read_le(buf, pos, 4) as u32,
                event_type: buf[pos + 4],
                server_id: read_le(buf, pos + 5, 4) as u32,
                event_length: read_le(buf, pos + 9, 4) as u32,
                next_event_position: read_le(buf, pos + 13, 4) as u32,
                event_flags: read_le(buf, pos + 17, 2) as u16,
            },
        )
    }
}

} // verus!
