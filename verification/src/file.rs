//! Reading a whole log, and the proof that a file of whole events gives
//! every one of them.

use vstd::prelude::*;
use crate::bytes::in_bounds;
use crate::error::BinlogError;
use crate::event::{event_of, is_row_event, EVENT_TABLE_MAP, EventData, EventDataView};
use crate::frame::{frame_body, frame_end, frame_ok};
use crate::header::{header_at, EventHeader};
use crate::parser::{has_magic, step_of, tables_behind, BinlogParser, BinlogSource};
use crate::rows::rows_table_id;
use crate::table_map::{table_map_of, TableMapView};

verus! {

/// The events of `v` as mathematical values.
pub open spec fn events_view(v: Seq<(EventHeader, EventData)>) -> Seq<
    (EventHeader, EventDataView),
> {
    v.map_values(|e: (EventHeader, EventData)| (e.0, e.1@))
}

/// What reading a source to its end gives.
pub struct Reading {
    /// The events that were decoded, in the order of the bytes.
    pub events: Seq<(EventHeader, EventDataView)>,
    /// The error at which reading stopped, if it did not reach the end.
    pub error: Option<BinlogError>,
    /// The position behind the last event that was decoded.
    pub position: int,
    /// The table maps known behind the last event that was decoded.
    pub tables: Map<u64, TableMapView>,
}

/// What reading event after event from `pos` on gives, with the events
/// appended to `acc`: reading stops at the end of the bytes, or at the
/// first event that cannot be read or decoded.
pub open spec fn events_from(
    s: Seq<u8>,
    pos: int,
    checksum_length: nat,
    tables: Map<u64, TableMapView>,
    acc: Seq<(EventHeader, EventDataView)>,
) -> Reading
    decreases s.len() - pos,
{
    match step_of(s, pos, checksum_length as int, tables) {
        Ok(None) => Reading { events: acc, error: None, position: pos, tables },
        Err(e) => Reading { events: acc, error: Some(e), position: pos, tables },
        Ok(Some(event)) => events_from(
            s,
            frame_end(s, pos),
            checksum_length,
            tables_behind(s, pos, checksum_length as int, tables),
            acc.push(event),
        ),
    }
}

/// Whether `f` is one whole event: a header and as many bytes as the
/// header says, enough for the header and the checksum.
pub open spec fn whole_event(f: Seq<u8>, checksum_length: nat) -> bool {
    frame_ok(f, 0, checksum_length as int) && header_at(f, 0).event_length == f.len()
}

/// The bytes of `frames`, one behind the other.
pub open spec fn joined(frames: Seq<Seq<u8>>) -> Seq<u8>
    decreases frames.len(),
{
    if frames.len() == 0 {
        Seq::empty()
    } else {
        frames[0] + joined(frames.skip(1))
    }
}

/// Whether each of `frames` decodes, with the table maps that are known
/// behind those before it, starting from `tables`.
pub open spec fn all_decode(
    frames: Seq<Seq<u8>>,
    checksum_length: nat,
    tables: Map<u64, TableMapView>,
) -> bool
    decreases frames.len(),
{
    frames.len() == 0 || (event_of(
        header_at(frames[0], 0).event_type,
        frame_body(frames[0], 0, checksum_length as int),
        tables,
    ) is Ok && all_decode(
        frames.skip(1),
        checksum_length,
        tables_behind(frames[0], 0, checksum_length as int, tables),
    ))
}

/// The events that `frames` hold, each decoded with the table maps that
/// are known behind those before it.
pub open spec fn decoded(
    frames: Seq<Seq<u8>>,
    checksum_length: nat,
    tables: Map<u64, TableMapView>,
) -> Seq<(EventHeader, EventDataView)>
    decreases frames.len(),
{
    if frames.len() == 0 {
        Seq::empty()
    } else {
        seq![
            (
                header_at(frames[0], 0),
                event_of(
                    header_at(frames[0], 0).event_type,
                    frame_body(frames[0], 0, checksum_length as int),
                    tables,
                ).unwrap(),
            ),
        ] + decoded(
            frames.skip(1),
            checksum_length,
            tables_behind(frames[0], 0, checksum_length as int, tables),
        )
    }
}

/// The magic of a binary-log file.
pub open spec fn magic() -> Seq<u8> {
    seq![0xfeu8, 0x62u8, 0x69u8, 0x6eu8]
}

/// An event that stands at `pos` in `s` is read there as it is read alone.
#[verifier::rlimit(40)]
pub proof fn lemma_embedded_event(
    s: Seq<u8>,
    pos: int,
    f: Seq<u8>,
    checksum_length: nat,
    tables: Map<u64, TableMapView>,
)
    requires
        whole_event(f, checksum_length),
        in_bounds(s, pos, f.len() as int),
        s.subrange(pos, pos + f.len()) == f,
    ensures
        frame_ok(s, pos, checksum_length as int),
        header_at(s, pos) == header_at(f, 0),
        frame_end(s, pos) == pos + f.len(),
        frame_body(s, pos, checksum_length as int) == frame_body(f, 0, checksum_length as int),
{
    lemma_le_at_embedded(s, pos, f, 0, 4);
    lemma_le_at_embedded(s, pos, f, 5, 4);
    lemma_le_at_embedded(s, pos, f, 9, 4);
    lemma_le_at_embedded(s, pos, f, 13, 4);
    lemma_le_at_embedded(s, pos, f, 17, 2);
    assert(s[pos + 4] == s.subrange(pos, pos + f.len())[4]);
    assert(frame_body(s, pos, checksum_length as int) =~= frame_body(f, 0, checksum_length as int));
}

/// Little-endian values of a byte string `f` that stands at `pos` in `s`
/// are read there as they are read in `f`.
proof fn lemma_le_at_embedded(s: Seq<u8>, pos: int, f: Seq<u8>, at: int, n: nat)
    requires
        in_bounds(s, pos, f.len() as int),
        s.subrange(pos, pos + f.len()) == f,
        0 <= at,
        at + n <= f.len(),
    ensures
        crate::bytes::le_at(s, pos + at, n) == crate::bytes::le_at(f, at, n),
    decreases n,
{
    if n > 0 {
        assert(s[pos + at] == s.subrange(pos, pos + f.len())[at]);
        lemma_le_at_embedded(s, pos, f, at + 1, (n - 1) as nat);
    }
}

/// Reading whole events that stand one behind the other, behind any bytes
/// `before`, gives every one of them, in their order, and ends without an
/// error at the end of the bytes.
#[verifier::rlimit(40)]
pub proof fn lemma_joined_events_are_all_read(
    before: Seq<u8>,
    frames: Seq<Seq<u8>>,
    checksum_length: nat,
    tables: Map<u64, TableMapView>,
    acc: Seq<(EventHeader, EventDataView)>,
)
    requires
        forall|i: int| 0 <= i < frames.len() ==> whole_event(#[trigger] frames[i], checksum_length),
        all_decode(frames, checksum_length, tables),
    ensures
        events_from(
            before + joined(frames),
            before.len() as int,
            checksum_length,
            tables,
            acc,
        ).events == acc + decoded(frames, checksum_length, tables),
        events_from(
            before + joined(frames),
            before.len() as int,
            checksum_length,
            tables,
            acc,
        ).error is None,
        events_from(
            before + joined(frames),
            before.len() as int,
            checksum_length,
            tables,
            acc,
        ).position == (before + joined(frames)).len(),
        decoded(frames, checksum_length, tables).len() == frames.len(),
    decreases frames.len(),
{
    let s = before + joined(frames);
    let pos = before.len() as int;
    if frames.len() == 0 {
        assert(s =~= before);
        assert(acc + decoded(frames, checksum_length, tables) =~= acc);
    } else {
        let f = frames[0];
        let rest = frames.skip(1);
        assert(whole_event(f, checksum_length));
        assert(s.subrange(pos, pos + f.len()) =~= f);
        lemma_embedded_event(s, pos, f, checksum_length, tables);
        let event = (
            header_at(f, 0),
            event_of(
                header_at(f, 0).event_type,
                frame_body(f, 0, checksum_length as int),
                tables,
            ).unwrap(),
        );
        let next_tables = tables_behind(f, 0, checksum_length as int, tables);
        assert(step_of(s, pos, checksum_length as int, tables) == Ok::<
            Option<(EventHeader, EventDataView)>,
            BinlogError,
        >(Some(event)));
        assert(tables_behind(s, pos, checksum_length as int, tables) == next_tables);
        assert forall|i: int| 0 <= i < rest.len() implies whole_event(
            #[trigger] rest[i],
            checksum_length,
        ) by {
            assert(rest[i] == frames[i + 1]);
        }
        assert(before + f + joined(rest) =~= s);
        lemma_joined_events_are_all_read(
            before + f,
            rest,
            checksum_length,
            next_tables,
            acc.push(event),
        );
        assert(acc.push(event) + decoded(rest, checksum_length, next_tables) =~= acc + decoded(
            frames,
            checksum_length,
            tables,
        ));
    }
}

/// A file that holds the magic and then whole events, one behind the
/// other, each of which decodes: the magic is found, and reading behind it
/// gives exactly as many events as the file holds, in the file's order and
/// each with the header it has in the file, without an error.
pub proof fn lemma_file_gives_every_event(
    frames: Seq<Seq<u8>>,
    checksum_length: nat,
    tables: Map<u64, TableMapView>,
)
    requires
        forall|i: int| 0 <= i < frames.len() ==> whole_event(#[trigger] frames[i], checksum_length),
        all_decode(frames, checksum_length, tables),
    ensures
        has_magic(magic() + joined(frames), 0),
        events_from(magic() + joined(frames), 4, checksum_length, tables, Seq::empty()).error
            is None,
        events_from(magic() + joined(frames), 4, checksum_length, tables, Seq::empty()).events
            == decoded(frames, checksum_length, tables),
        decoded(frames, checksum_length, tables).len() == frames.len(),
        forall|i: int|
            0 <= i < frames.len() ==> (#[trigger] decoded(frames, checksum_length, tables)[i]).0
                == header_at(frames[i], 0),
{
    lemma_joined_events_are_all_read(magic(), frames, checksum_length, tables, Seq::empty());
    assert(Seq::<(EventHeader, EventDataView)>::empty() + decoded(frames, checksum_length, tables)
        =~= decoded(frames, checksum_length, tables));
    assert forall|i: int| 0 <= i < frames.len() implies (#[trigger] decoded(
        frames,
        checksum_length,
        tables,
    )[i]).0 == header_at(frames[i], 0) by {
        lemma_decoded_header(frames, checksum_length, tables, i);
    }
}

/// Event `i` of what is decoded has the header of frame `i`.
pub proof fn lemma_decoded_header(
    frames: Seq<Seq<u8>>,
    checksum_length: nat,
    tables: Map<u64, TableMapView>,
    i: int,
)
    requires
        0 <= i < frames.len(),
    ensures
        decoded(frames, checksum_length, tables).len() == frames.len(),
        decoded(frames, checksum_length, tables)[i].0 == header_at(frames[i], 0),
    decreases frames.len(),
{
    lemma_decoded_length(frames, checksum_length, tables);
    if i > 0 {
        let rest = frames.skip(1);
        let next_tables = tables_behind(frames[0], 0, checksum_length as int, tables);
        lemma_decoded_header(rest, checksum_length, next_tables, i - 1);
        assert(rest[i - 1] == frames[i]);
    }
}

/// As many events are decoded as there are frames.
pub proof fn lemma_decoded_length(
    frames: Seq<Seq<u8>>,
    checksum_length: nat,
    tables: Map<u64, TableMapView>,
)
    ensures
        decoded(frames, checksum_length, tables).len() == frames.len(),
    decreases frames.len(),
{
    if frames.len() > 0 {
        lemma_decoded_length(
            frames.skip(1),
            checksum_length,
            tables_behind(frames[0], 0, checksum_length as int, tables),
        );
    }
}

/// In a file as in `lemma_file_gives_every_event` whose events say where
/// the next event starts in positions that do not decrease, the events
/// that are read say so in the same positions.
pub proof fn lemma_next_positions_do_not_decrease(
    frames: Seq<Seq<u8>>,
    checksum_length: nat,
    tables: Map<u64, TableMapView>,
    i: int,
    j: int,
)
    requires
        0 <= i <= j < frames.len(),
        header_at(frames[i], 0).next_event_position <= header_at(frames[j], 0).next_event_position,
    ensures
        decoded(frames, checksum_length, tables)[i].0.next_event_position <= decoded(
            frames,
            checksum_length,
            tables,
        )[j].0.next_event_position,
{
    lemma_decoded_header(frames, checksum_length, tables, i);
    lemma_decoded_header(frames, checksum_length, tables, j);
}

impl BinlogParser {
    /// Reads and decodes event after event up to the end of the source.
    /// Returns the events that were decoded, in the order of the bytes,
    /// and the error at which reading stopped, if it did not reach the
    /// end; the source stands behind the last event that was decoded.
    pub fn read_all(&mut self, source: &mut BinlogSource) -> (r: (
        Vec<(EventHeader, EventData)>,
        Option<BinlogError>,
    ))
        ensures
            final(source).bytes@ == old(source).bytes@,
            final(self).checksum_length == old(self).checksum_length,
            ({
                let reading = events_from(
                    old(source).bytes@,
                    old(source).position as int,
                    old(self).checksum_length as nat,
                    old(self).tables(),
                    Seq::empty(),
                );
                &&& events_view(r.0@) == reading.events
                &&& r.1 == reading.error
                &&& final(source).position == reading.position
                &&& final(self).tables() == reading.tables
            }),
    {
        let mut events: Vec<(EventHeader, EventData)> = Vec::new();
        assert(events_view(events@) =~= Seq::empty());
        loop
            invariant
                source.bytes@ == old(source).bytes@,
                self.checksum_length == old(self).checksum_length,
                events_from(
                    old(source).bytes@,
                    old(source).position as int,
                    old(self).checksum_length as nat,
                    old(self).tables(),
                    Seq::empty(),
                ) == events_from(
                    source.bytes@,
                    source.position as int,
                    self.checksum_length as nat,
                    self.tables(),
                    events_view(events@),
                ),
            decreases source.bytes@.len() - source.position,
        {
            let ghost before = events@;
            match self.next(source) {
                Ok(None) => {
                    return (events, None);
                },
                Err(e) => {
                    return (events, Some(e));
                },
                Ok(Some(event)) => {
                    events.push(event);
                    assert(events_view(events@) =~= events_view(before).push((event.0, event.1@)));
                },
            }
        }
    }
}

/// The table maps that are known behind all of `frames`, starting from
/// `tables`.
pub open spec fn tables_at_end(
    frames: Seq<Seq<u8>>,
    checksum_length: nat,
    tables: Map<u64, TableMapView>,
) -> Map<u64, TableMapView>
    decreases frames.len(),
{
    if frames.len() == 0 {
        tables
    } else {
        tables_at_end(
            frames.skip(1),
            checksum_length,
            tables_behind(frames[0], 0, checksum_length as int, tables),
        )
    }
}

/// Whether the event `f` is a table map for the table `id`.
pub open spec fn maps_table(f: Seq<u8>, checksum_length: nat, id: u64) -> bool {
    header_at(f, 0).event_type == EVENT_TABLE_MAP && match table_map_of(
        frame_body(f, 0, checksum_length as int),
    ) {
        Some(t) => t.table_id == id,
        None => false,
    }
}

/// A table is not known before its table map: where no table map for
/// `id` is known at first and none of the events is a table map for `id`,
/// none is known behind the events, so that a row event of the table that
/// follows is refused as one of an unknown table.
pub proof fn lemma_table_is_unknown_before_its_map(
    frames: Seq<Seq<u8>>,
    checksum_length: nat,
    tables: Map<u64, TableMapView>,
    id: u64,
)
    requires
        !tables.contains_key(id),
        forall|i: int|
            0 <= i < frames.len() ==> !maps_table(#[trigger] frames[i], checksum_length, id),
    ensures
        !tables_at_end(frames, checksum_length, tables).contains_key(id),
        forall|event_type: u8, body: Seq<u8>|
            is_row_event(event_type) && rows_table_id(body) == Some(id) ==> #[trigger] event_of(
                event_type,
                body,
                tables_at_end(frames, checksum_length, tables),
            ) == Err::<EventDataView, BinlogError>(BinlogError::UnknownTable(id)),
    decreases frames.len(),
{
    if frames.len() > 0 {
        let rest = frames.skip(1);
        assert(!maps_table(frames[0], checksum_length, id));
        assert forall|i: int| 0 <= i < rest.len() implies !maps_table(
            #[trigger] rest[i],
            checksum_length,
            id,
        ) by {
            assert(rest[i] == frames[i + 1]);
        }
        lemma_table_is_unknown_before_its_map(
            rest,
            checksum_length,
            tables_behind(frames[0], 0, checksum_length as int, tables),
            id,
        );
    }
}

/// How far the reading of a log file has come.
#[derive(Debug, Clone, Copy, PartialEq, Eq, Structural)]
pub enum FileState {
    /// Nothing was read yet.
    Unopened,
    /// The magic was found; no event was read yet.
    MagicChecked,
    /// Events are being read.
    Reading,
    /// The end of the file was reached.
    Done,
    /// Reading failed and cannot go on.
    Failed(BinlogError),
}

/// A log file held in memory, with the decoder of its events and the
/// state of its reading.
pub struct BinlogFile {
    pub source: BinlogSource,
    pub parser: BinlogParser,
    pub state: FileState,
}

impl BinlogFile {
    /// What checking the magic gives, by the state: a file on which
    /// nothing was read has its magic checked; a file that failed stays
    /// failed; in any other state the check comes out of turn and is a
    /// `Protocol` error that changes nothing.
    pub open spec fn magic_step(&self) -> (FileState, Result<(), BinlogError>) {
        match self.state {
            FileState::Unopened => if has_magic(self.source.bytes@, self.source.position as int) {
                (FileState::MagicChecked, Ok(()))
            } else {
                (FileState::Failed(BinlogError::Format), Err(BinlogError::Format))
            },
            FileState::Failed(e) => (FileState::Failed(e), Err(e)),
            other => (other, Err(BinlogError::Protocol)),
        }
    }

    /// What reading the next event gives, by the state: behind the magic,
    /// and while events are read, the next event, the end of the file, or
    /// the error that ends the reading; at the end, the end again; in a
    /// failed file, its error; before the magic was checked, a `Protocol`
    /// error that changes nothing.
    pub open spec fn next_step(&self) -> (
        FileState,
        Result<Option<(EventHeader, EventDataView)>, BinlogError>,
    ) {
        match self.state {
            FileState::Unopened => (FileState::Unopened, Err(BinlogError::Protocol)),
            FileState::Done => (FileState::Done, Ok(None)),
            FileState::Failed(e) => (FileState::Failed(e), Err(e)),
            _ => match step_of(
                self.source.bytes@,
                self.source.position as int,
                self.parser.checksum_length as int,
                self.parser.tables(),
            ) {
                Ok(None) => (FileState::Done, Ok(None)),
                Ok(Some(event)) => (FileState::Reading, Ok(Some(event))),
                Err(e) => (FileState::Failed(e), Err(e)),
            },
        }
    }

    /// A file on which nothing was read yet.
    pub fn new(bytes: Vec<u8>, checksum_length: usize) -> (file: BinlogFile)
        ensures
            file.source.bytes == bytes,
            file.source.position == 0,
            file.parser.checksum_length == checksum_length,
            file.parser.tables() == Map::<u64, TableMapView>::empty(),
            file.state == FileState::Unopened,
    {
        BinlogFile {
            source: BinlogSource { bytes, position: 0 },
            parser: BinlogParser::new(checksum_length),
            state: FileState::Unopened,
        }
    }

    /// Checks the magic at the start of the file.
    pub fn check_magic(&mut self) -> (r: Result<(), BinlogError>)
        ensures
            (final(self).state, r) == old(self).magic_step(),
            final(self).source.bytes@ == old(self).source.bytes@,
            final(self).parser == old(self).parser,
            r is Ok ==> final(self).source.position == old(self).source.position + 4,
            r is Err ==> final(self).source.position == old(self).source.position,
    {
        match self.state {
            FileState::Unopened => {
                match self.parser.check_magic(&mut self.source) {
                    Ok(()) => {
                        self.state = FileState::MagicChecked;
                        Ok(())
                    },
                    Err(e) => {
                        self.state = FileState::Failed(e);
                        Err(e)
                    },
                }
            },
            FileState::Failed(e) => Err(e),
            _ => Err(BinlogError::Protocol),
        }
    }

    /// Reads the next event of the file. An error ends the reading for
    /// good; the events that were read before it stay read.
    pub fn next(&mut self) -> (r: Result<Option<(EventHeader, EventData)>, BinlogError>)
        ensures
            final(self).state == old(self).next_step().0,
            match old(self).next_step().1 {
                Ok(None) => r matches Ok(None),
                Ok(Some((header, data))) => r matches Ok(Some((h, d))) && h == header && d@ == data,
                Err(e) => r matches Err(x) && x == e,
            },
            final(self).source.bytes@ == old(self).source.bytes@,
            final(self).parser.checksum_length == old(self).parser.checksum_length,
            r matches Ok(Some(_)) ==> final(self).source.position == frame_end(
                old(self).source.bytes@,
                old(self).source.position as int,
            ) && final(self).parser.tables() == tables_behind(
                old(self).source.bytes@,
                old(self).source.position as int,
                old(self).parser.checksum_length as int,
                old(self).parser.tables(),
            ),
            !(r matches Ok(Some(_))) ==> final(self).source.position == old(self).source.position
                && final(self).parser.tables() == old(self).parser.tables(),
    {
        match self.state {
            FileState::Unopened => Err(BinlogError::Protocol),
            FileState::Done => Ok(None),
            FileState::Failed(e) => Err(e),
            _ => {
                match self.parser.next(&mut self.source) {
                    Ok(None) => {
                        self.state = FileState::Done;
                        Ok(None)
                    },
                    Ok(Some(event)) => {
                        self.state = FileState::Reading;
                        Ok(Some(event))
                    },
                    Err(e) => {
                        self.state = FileState::Failed(e);
                        Err(e)
                    },
                }
            },
        }
    }
}

} // verus!
