//! Decoding of MySQL binary logs: cutting events out of a stream or a
//! file, decoding their bodies into typed values with the table maps seen
//! so far, rendering the binary JSON encoding as text, and the steps by
//! which a replica connects to a server and asks for the log.
//!
//! Every decoder is stated over a mathematical model of the bytes it
//! reads, a `Seq<u8>` and positions in it, and proved against that model.
//! Beside the contracts of the functions the crate proves what holds of
//! the models themselves:
//!
//! - what is written is decoded to itself: numbers and packets
//!   ([`bytes`], [`command`]), the value of every column type ([`encode`],
//!   [`decimal_encode`]), row images and row events ([`rows_encode`]),
//!   table maps ([`table_map_encode`]), headers and whole events
//!   ([`frame`]);
//! - a row event of a table that has no table map yet is refused and
//!   changes nothing, and a table map takes the place of an earlier one
//!   for the same table ([`parser`], [`file`]);
//! - the checksum at the end of an event never reaches a decoder
//!   ([`parser`]);
//! - a file of whole events gives every one of them, in the file's order
//!   ([`file`]);
//! - the request that starts the dump names the GTID set or the file and
//!   position, as the settings say ([`command`]).
//!
//! Nothing in the library reads a file or a socket: the caller hands it
//! bytes and carries out what it asks for.

pub mod bytes;
pub mod column;
pub mod command;
pub mod connection;
pub mod decimal;
pub mod decimal_encode;
pub mod encode;
pub mod error;
pub mod event;
pub mod file;
pub mod frame;
pub mod gtid;
pub mod handshake;
pub mod header;
pub mod json;
pub mod json_columns;
pub mod parser;
pub mod rows;
pub mod rows_encode;
pub mod table_map;
pub mod table_map_encode;
pub mod target;
pub mod temporal;
pub mod text;
