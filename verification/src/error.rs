//! The errors of the library.

use vstd::prelude::*;

verus! {

/// Why a binary log could not be read or decoded.
#[derive(Debug, Clone, Copy, PartialEq, Eq, Structural)]
pub enum BinlogError {
    /// The server refused the handshake, the credentials or the registration,
    /// or the transport could not be established.
    Connection,
    /// No event and no heartbeat arrived within the configured time.
    Timeout,
    /// The byte source failed.
    Io,
    /// An event header or body is malformed or cut short.
    Protocol,
    /// The input is not in the expected format: a wrong file magic, or a
    /// malformed binary JSON document.
    Format,
    /// A row event names a table id for which no table map was seen.
    UnknownTable(u64),
}

impl BinlogError {
    /// A few words on what went wrong.
    pub fn describe(&self) -> (text: &'static str)
        ensures
            text@ == match *self {
                BinlogError::Connection => "the server refused the connection"@,
                BinlogError::Timeout => "nothing arrived in time"@,
                BinlogError::Io => "the byte source failed"@,
                BinlogError::Protocol => "an event or a packet is malformed"@,
                BinlogError::Format => "the input is not in the expected format"@,
                BinlogError::UnknownTable(_) => "a row event names a table that was not mapped"@,
            },
    {
        match self {
            BinlogError::Connection => "the server refused the connection",
            BinlogError::Timeout => "nothing arrived in time",
            BinlogError::Io => "the byte source failed",
            BinlogError::Protocol => "an event or a packet is malformed",
            BinlogError::Format => "the input is not in the expected format",
            BinlogError::UnknownTable(_) => "a row event names a table that was not mapped",
        }
    }
}

} // verus!
