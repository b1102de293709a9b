//! Dates and times, and the packed forms in which columns hold them.

use vstd::prelude::*;
use crate::text::{clock_text, date_text, push_clock, push_date};
use crate::bytes::{be_at, in_bounds, lemma_be_at_bound, lemma_pow256_values, pow256, read_be};

verus! {

/// A calendar date.
#[derive(Debug, Clone, Copy, PartialEq, Eq, Structural)]
pub struct DateValue {
    pub year: u16,
    pub month: u8,
    pub day: u8,
}

/// A time of day or a signed duration, as MySQL's `TIME` holds it.
#[derive(Debug, Clone, Copy, PartialEq, Eq, Structural)]
pub struct TimeValue {
    pub negative: bool,
    pub hours: u16,
    pub minutes: u8,
    pub seconds: u8,
    pub micros: u32,
}

/// A calendar date with a time of day.
#[derive(Debug, Clone, Copy, PartialEq, Eq, Structural)]
pub struct DateTimeValue {
    pub year: u16,
    pub month: u8,
    pub day: u8,
    pub hour: u8,
    pub minute: u8,
    pub second: u8,
    pub micros: u32,
}

/// Number of bytes that hold the fraction of a second at precision `fsp`.
pub open spec fn fraction_bytes(fsp: int) -> int {
    (fsp + 1) / 2
}

/// Microseconds that one unit of a stored fraction of `n` bytes stands for.
pub open spec fn fraction_unit(n: int) -> int {
    if n == 1 {
        10000
    } else if n == 2 {
        100
    } else {
        1
    }
}

/// The date packed into `v`: day in the lowest 5 bits, month in the next 4,
/// year above them.
pub open spec fn date_of(v: nat) -> DateValue {
    DateValue { year: (v / 512) as u16, month: ((v / 32) % 16) as u8, day: (v % 32) as u8 }
}

/// The time that the decimal number `hhmmss` spells.
pub open spec fn time_of_decimal(negative: bool, v: nat) -> TimeValue {
    TimeValue {
        negative,
        hours: (v / 10000) as u16,
        minutes: ((v / 100) % 100) as u8,
        seconds: (v % 100) as u8,
        micros: 0,
    }
}

/// The date and time that the decimal number `yyyymmddhhmmss` spells.
pub open spec fn datetime_of_decimal(v: nat) -> DateTimeValue {
    DateTimeValue {
        year: (v / 10000000000) as u16,
        month: ((v / 100000000) % 100) as u8,
        day: ((v / 1000000) % 100) as u8,
        hour: ((v / 10000) % 100) as u8,
        minute: ((v / 100) % 100) as u8,
        second: (v % 100) as u8,
        micros: 0,
    }
}

/// The date and time packed into the 40 bits of `v`: seconds in the lowest 6
/// bits, then minutes (6), hours (5), days (5), and 17 bits that hold
/// `13 * year + month`; the highest bit is a sign that is always set.
pub open spec fn datetime_of_packed(v: nat, micros: nat) -> DateTimeValue {
    let ym = (v / 4194304) % 131072;
    DateTimeValue {
        year: (ym / 13) as u16,
        month: (ym % 13) as u8,
        day: ((v / 131072) % 32) as u8,
        hour: ((v / 4096) % 32) as u8,
        minute: ((v / 64) % 64) as u8,
        second: (v % 64) as u8,
        micros: micros as u32,
    }
}

/// The time that a packed `TIME` of `3 + n` bytes holds, `n` of them for the
/// fraction. The bytes are one big-endian number, offset by half its range;
/// below the offset the time is negative. Of the number's absolute distance
/// to the offset, the part above the fraction holds seconds in 6 bits,
/// minutes in 6 and hours in 10.
pub open spec fn time_of_packed(x: nat, n: int) -> TimeValue {
    let offset = pow256((3 + n) as nat) / 2;
    let a = if x >= offset {
        x - offset
    } else {
        offset - x
    };
    let hms = a / pow256(n as nat) as int;
    TimeValue {
        negative: x < offset,
        hours: ((hms / 4096) % 1024) as u16,
        minutes: ((hms / 64) % 64) as u8,
        seconds: (hms % 64) as u8,
        micros: ((a % pow256(n as nat) as int) * fraction_unit(n)) as u32,
    }
}

/// Reads a fraction of a second stored at precision `fsp`, in microseconds.
pub(crate) fn read_fraction(buf: &[u8], pos: usize, fsp: u16) -> (micros: u32)
    requires
        fsp <= 6,
        in_bounds(buf@, pos as int, fraction_bytes(fsp as int)),
    ensures
        micros == be_at(buf@, pos as int, fraction_bytes(fsp as int) as nat) * fraction_unit(
            fraction_bytes(fsp as int),
        ),
{
    let n: usize = ((fsp + 1) / 2) as usize;
    let raw: u64 = read_be(buf, pos, n);
    proof {
        lemma_be_at_bound(buf@, pos as int, n as nat);
        lemma_pow256_values();
    }
    if n == 1 {
        (raw * 10000) as u32
    } else if n == 2 {
        (raw * 100) as u32
    } else {
        raw as u32
    }
}

/// Decodes a packed `TIME` of `3 + n` bytes from its big-endian number.
pub(crate) fn time_from_packed(x: u64, n: usize) -> (t: TimeValue)
    requires
        n <= 3,
        x < pow256((3 + n) as nat),
    ensures
        t == time_of_packed(x as nat, n as int),
{
    proof {
        lemma_pow256_values();
    }
    let offset: u64 = if n == 0 {
        0x80_0000
    } else if n == 1 {
        0x8000_0000
    } else if n == 2 {
        0x80_0000_0000
    } else {
        0x8000_0000_0000
    };
    let unit: u64 = if n == 0 {
        1
    } else if n == 1 {
        0x100
    } else if n == 2 {
        0x1_0000
    } else {
        0x100_0000
    };
    let scale: u64 = if n == 1 {
        10000
    } else if n == 2 {
        100
    } else {
        1
    };
    let a: u64 = if x >= offset {
        x - offset
    } else {
        offset - x
    };
    let hms: u64 = a / unit;
    TimeValue {
        negative: x < offset,
        hours: ((hms / 4096) % 1024) as u16,
        minutes: ((hms / 64) % 64) as u8,
        seconds: (hms % 64) as u8,
        micros: ((a % unit) * scale) as u32,
    }
}

/// Decodes a packed `DATETIME` from the number in its first 5 bytes.
pub fn datetime_from_packed(v: u64, micros: u32) -> (d: DateTimeValue)
    ensures
        d == datetime_of_packed(v as nat, micros as nat),
{
    let ym: u64 = (v / 4194304) % 131072;
    DateTimeValue {
        year: (ym / 13) as u16,
        month: (ym % 13) as u8,
        day: ((v / 131072) % 32) as u8,
        hour: ((v / 4096) % 32) as u8,
        minute: ((v / 64) % 64) as u8,
        second: (v % 64) as u8,
        micros,
    }
}

impl DateValue {
    /// The date as text: `yyyy-mm-dd`.
    pub fn text(&self) -> (t: Vec<u8>)
        ensures
            t@ == date_text(self.year as nat, self.month as nat, self.day as nat),
    {
        let mut t: Vec<u8> = Vec::new();
        push_date(&mut t, self.year, self.month, self.day);
        assert(t@ =~= date_text(self.year as nat, self.month as nat, self.day as nat));
        t
    }
}

impl TimeValue {
    /// The time as text: `hh:mm:ss.ffffff`, behind a minus sign where it
    /// is negative.
    pub fn text(&self) -> (t: Vec<u8>)
        ensures
            t@ == (if self.negative {
                seq![45u8]
            } else {
                Seq::<u8>::empty()
            }) + clock_text(
                self.hours as nat,
                self.minutes as nat,
                self.seconds as nat,
                self.micros as nat,
            ),
    {
        let mut t: Vec<u8> = Vec::new();
        if self.negative {
            t.push(45);
        }
        push_clock(
            &mut t,
            self.hours as u64,
            self.minutes as u64,
            self.seconds as u64,
            self.micros as u64,
        );
        t
    }
}

impl DateTimeValue {
    /// The date and time as text: `yyyy-mm-dd hh:mm:ss.ffffff`.
    pub fn text(&self) -> (t: Vec<u8>)
        ensures
            t@ == date_text(self.year as nat, self.month as nat, self.day as nat) + seq![32u8]
                + clock_text(
                self.hour as nat,
                self.minute as nat,
                self.second as nat,
                self.micros as nat,
            ),
    {
        let mut t: Vec<u8> = Vec::new();
        push_date(&mut t, self.year, self.month, self.day);
        t.push(32);
        push_clock(
            &mut t,
            self.hour as u64,
            self.minute as u64,
            self.second as u64,
            self.micros as u64,
        );
        assert(t@ =~= date_text(self.year as nat, self.month as nat, self.day as nat) + seq![32u8]
            + clock_text(
            self.hour as nat,
            self.minute as nat,
            self.second as nat,
            self.micros as nat,
        ));
        t
    }
}

} // verus!
