//! Cutting events out of a byte stream, with the checksum left out.

use vstd::prelude::*;
use crate::bytes::{fits, in_bounds, le_bytes};
use crate::error::BinlogError;
use crate::header::{header_at, EventHeader, HEADER_LENGTH};

verus! {

/// One event as it is cut out of a byte stream.
pub struct Frame<'a> {
    pub header: EventHeader,
    /// The event's body, without the header and without the checksum.
    pub body: &'a [u8],
    /// Position of the first byte behind the event.
    pub end: usize,
}

/// Whether a whole event stands at `pos`: a header, and as many bytes as the
/// header's event length says, which must cover the header and the checksum.
pub open spec fn frame_ok(s: Seq<u8>, pos: int, checksum_length: int) -> bool {
    &&& in_bounds(s, pos, 19)
    &&& header_at(s, pos).event_length >= 19 + checksum_length
    &&& in_bounds(s, pos, header_at(s, pos).event_length as int)
}

/// Position of the first byte behind the event at `pos`.
pub open spec fn frame_end(s: Seq<u8>, pos: int) -> int {
    pos + header_at(s, pos).event_length
}

/// The body of the event at `pos`: what stands between the header and the
/// last `checksum_length` bytes of the event.
pub open spec fn frame_body(s: Seq<u8>, pos: int, checksum_length: int) -> Seq<u8> {
    s.subrange(pos + 19, frame_end(s, pos) - checksum_length)
}

/// Number of bytes that are still missing at the end of `s` for a whole
/// event to stand at `pos`; `0` when nothing is missing.
pub open spec fn frame_shortfall(s: Seq<u8>, pos: int) -> int {
    if !in_bounds(s, pos, 19) {
        pos + 19 - s.len()
    } else if !in_bounds(s, pos, header_at(s, pos).event_length as int) {
        frame_end(s, pos) - s.len()
    } else {
        0
    }
}

/// Cuts the event at `pos` out of `buf`. The checksum, the last
/// `checksum_length` bytes of the event, is left out of the body and not
/// looked at. Fails with `Protocol` exactly when no whole event stands there.
pub fn read_frame<'a>(buf: &'a [u8], pos: usize, checksum_length: usize) -> (r: Result<
    Frame<'a>,
    BinlogError,
>)
    ensures
        frame_ok(buf@, pos as int, checksum_length as int) ==> (r matches Ok(f) && {
            &&& f.header == header_at(buf@, pos as int)
            &&& f.body@ == frame_body(buf@, pos as int, checksum_length as int)
            &&& f.end == frame_end(buf@, pos as int)
        }),
        !frame_ok(buf@, pos as int, checksum_length as int) ==> (r matches Err(e) && e
            == BinlogError::Protocol),
{
    let header = EventHeader::parse(buf, pos)?;
    let length = header.event_length as usize;
    if checksum_length > length || length - checksum_length < HEADER_LENGTH {
        return Err(BinlogError::Protocol);
    }
    if !fits(buf, pos, length) {
        return Err(BinlogError::Protocol);
    }
    let end = pos + length;
    let body = vstd::slice::slice_subrange(buf, pos + HEADER_LENGTH, end - checksum_length);
    Ok(Frame { header, body, end })
}

/// How many more bytes the source has to deliver before a whole event
/// stands at `pos`. A reader that gets this many bytes, or keeps reading
/// until it has them, never hands a short read on as data.
pub fn bytes_missing(buf: &[u8], pos: usize) -> (n: usize)
    requires
        pos <= buf@.len(),
    ensures
        n == frame_shortfall(buf@, pos as int),
        n == 0 <==> in_bounds(buf@, pos as int, 19) && in_bounds(
            buf@,
            pos as int,
            header_at(buf@, pos as int).event_length as int,
        ),
{
    let available = buf.len() - pos;
    if available < HEADER_LENGTH {
        return HEADER_LENGTH - available;
    }
    match EventHeader::parse(buf, pos) {
        Ok(header) => {
            let length = header.event_length as usize;
            if length > available {
                length - available
            } else {
                0
            }
        },
        Err(_) => 0,
    }
}

/// The 19 bytes of the header `h`.
pub open spec fn encoded_header(h: EventHeader) -> Seq<u8> {
    le_bytes(h.timestamp as int, 4) + seq![h.event_type] + le_bytes(h.server_id as int, 4)
        + le_bytes(h.event_length as int, 4) + le_bytes(h.next_event_position as int, 4) + le_bytes(
        h.event_flags as int,
        2,
    )
}

/// A header that is written is read back, wherever it stands.
pub proof fn lemma_header_is_read_back(h: EventHeader, before: Seq<u8>, after: Seq<u8>)
    ensures
        encoded_header(h).len() == 19,
        header_at(before + encoded_header(h) + after, before.len() as int) == h,
{
    let s = before + encoded_header(h) + after;
    let pos = before.len() as int;
    let f1 = le_bytes(h.timestamp as int, 4);
    let f2 = seq![h.event_type];
    let f3 = le_bytes(h.server_id as int, 4);
    let f4 = le_bytes(h.event_length as int, 4);
    let f5 = le_bytes(h.next_event_position as int, 4);
    let f6 = le_bytes(h.event_flags as int, 2);
    crate::bytes::lemma_pow256_values();
    assert(s =~= before + f1 + (f2 + f3 + f4 + f5 + f6 + after));
    crate::bytes::lemma_le_bytes_read_back(
        h.timestamp as int,
        4,
        before,
        f2 + f3 + f4 + f5 + f6 + after,
    );
    assert(s =~= (before + f1 + f2) + f3 + (f4 + f5 + f6 + after));
    crate::bytes::lemma_le_bytes_read_back(
        h.server_id as int,
        4,
        before + f1 + f2,
        f4 + f5 + f6 + after,
    );
    assert(s =~= (before + f1 + f2 + f3) + f4 + (f5 + f6 + after));
    crate::bytes::lemma_le_bytes_read_back(
        h.event_length as int,
        4,
        before + f1 + f2 + f3,
        f5 + f6 + after,
    );
    assert(s =~= (before + f1 + f2 + f3 + f4) + f5 + (f6 + after));
    crate::bytes::lemma_le_bytes_read_back(
        h.next_event_position as int,
        4,
        before + f1 + f2 + f3 + f4,
        f6 + after,
    );
    assert(s =~= (before + f1 + f2 + f3 + f4 + f5) + f6 + after);
    crate::bytes::lemma_le_bytes_read_back(
        h.event_flags as int,
        2,
        before + f1 + f2 + f3 + f4 + f5,
        after,
    );
    assert(s[pos + 4] == h.event_type);
}

/// An event that is written is read back: wherever a header, a body and
/// a checksum stand, with the length of all three in the header, a whole
/// event is found there, and its body is the body that was written,
/// whatever the bytes of the checksum are.
pub proof fn lemma_event_is_read_back(
    h: EventHeader,
    body: Seq<u8>,
    checksum: Seq<u8>,
    before: Seq<u8>,
    after: Seq<u8>,
)
    requires
        h.event_length == 19 + body.len() + checksum.len(),
    ensures
        frame_ok(
            before + (encoded_header(h) + body + checksum) + after,
            before.len() as int,
            checksum.len() as int,
        ),
        header_at(before + (encoded_header(h) + body + checksum) + after, before.len() as int)
            == h,
        frame_body(
            before + (encoded_header(h) + body + checksum) + after,
            before.len() as int,
            checksum.len() as int,
        ) == body,
        frame_end(before + (encoded_header(h) + body + checksum) + after, before.len() as int)
            == before.len() + h.event_length,
{
    let s = before + (encoded_header(h) + body + checksum) + after;
    lemma_header_is_read_back(h, before, body + checksum + after);
    assert(s =~= before + encoded_header(h) + (body + checksum + after));
    assert(frame_body(s, before.len() as int, checksum.len() as int) =~= body);
}

} // verus!
