//! Sets of global transaction identifiers: their text and their encoding.

use vstd::prelude::*;
use crate::bytes::{byte_of, le_bytes, lemma_pow256_monotonic, lemma_pow256_values, pow256, push_le};
use crate::error::BinlogError;

verus! {

/// A range of transaction numbers: from `start` up to but without `end`.
#[derive(Debug, Clone, Copy, PartialEq, Eq, Structural)]
pub struct Interval {
    pub start: u64,
    pub end: u64,
}

/// The transactions of one server in a GTID set.
#[derive(Debug, Clone, PartialEq, Eq)]
pub struct UuidSet {
    /// The 16 bytes of the server's UUID, as a big-endian number.
    pub source_id: u128,
    pub intervals: Vec<Interval>,
}

/// The mathematical value of a [`UuidSet`].
pub struct UuidSetView {
    pub source_id: u128,
    pub intervals: Seq<Interval>,
}

impl View for UuidSet {
    type V = UuidSetView;

    open spec fn view(&self) -> UuidSetView {
        UuidSetView { source_id: self.source_id, intervals: self.intervals@ }
    }
}

/// A set of global transaction identifiers, as a replica names the
/// transactions that it has already.
#[derive(Debug, Clone, PartialEq, Eq)]
pub struct GtidSet {
    pub sets: Vec<UuidSet>,
}

/// The sets of `v` as mathematical values.
pub open spec fn sets_view(v: Seq<UuidSet>) -> Seq<UuidSetView> {
    v.map_values(|u: UuidSet| u@)
}

impl View for GtidSet {
    type V = Seq<UuidSetView>;

    open spec fn view(&self) -> Seq<UuidSetView> {
        sets_view(self.sets@)
    }
}

/// The value of the hexadecimal digit `c`.
pub open spec fn hex_value(c: u8) -> Option<int> {
    if 48 <= c <= 57 {
        Some(c - 48)
    } else if 97 <= c <= 102 {
        Some(c - 87)
    } else if 65 <= c <= 70 {
        Some(c - 55)
    } else {
        None
    }
}

/// Whether `c` is white space.
pub open spec fn is_space(c: u8) -> bool {
    c == 32 || c == 9 || c == 10 || c == 13
}

/// The first position from `pos` on that holds no white space.
pub open spec fn skip_spaces(s: Seq<u8>, pos: int) -> int
    decreases s.len() - pos,
{
    if 0 <= pos < s.len() && is_space(s[pos]) {
        skip_spaces(s, pos + 1)
    } else {
        pos
    }
}

/// Place in the text of a UUID of its hexadecimal digit `k`: the 32
/// digits stand in groups of 8, 4, 4, 4 and 12 with a hyphen between
/// groups.
pub open spec fn uuid_digit_at(k: int) -> int {
    if k < 8 {
        k
    } else if k < 12 {
        k + 1
    } else if k < 16 {
        k + 2
    } else if k < 20 {
        k + 3
    } else {
        k + 4
    }
}

/// The number that the hexadecimal digits from `k` up to `end` of the
/// UUID at `pos` add to `acc`.
pub open spec fn uuid_from(s: Seq<u8>, pos: int, k: int, end: int, acc: int) -> Option<int>
    decreases end - k,
{
    if k < 0 || k >= end {
        Some(acc)
    } else {
        match hex_value(s[pos + uuid_digit_at(k)]) {
            None => None,
            Some(d) => uuid_from(s, pos, k + 1, end, acc * 16 + d),
        }
    }
}

/// The UUID whose 36 characters stand at `pos`, as a number: its first 16
/// digits above its last 16.
pub open spec fn uuid_at(s: Seq<u8>, pos: int) -> Option<int> {
    if pos < 0 || pos + 36 > s.len() || s[pos + 8] != 45 || s[pos + 13] != 45 || s[pos + 18] != 45
        || s[pos + 23] != 45 {
        None
    } else {
        match (uuid_from(s, pos, 0, 16, 0), uuid_from(s, pos, 16, 32, 0)) {
            (Some(high), Some(low)) => Some(high * 0x1_0000_0000_0000_0000 + low),
            _ => None,
        }
    }
}

/// The decimal number whose digits stand from `pos` on, after `acc`, and
/// the position behind it. `None` for a number above the greatest `u64`.
pub open spec fn number_from(s: Seq<u8>, pos: int, acc: int) -> Option<(int, int)>
    decreases s.len() - pos,
{
    if 0 <= pos < s.len() && 48 <= s[pos] <= 57 {
        if acc * 10 + (s[pos] - 48) > u64::MAX {
            None
        } else {
            number_from(s, pos + 1, acc * 10 + (s[pos] - 48))
        }
    } else {
        Some((acc, pos))
    }
}

/// The decimal number at `pos`, of one digit at least, and the position
/// behind it.
pub open spec fn number_at(s: Seq<u8>, pos: int) -> Option<(int, int)> {
    if 0 <= pos < s.len() && 48 <= s[pos] <= 57 {
        number_from(s, pos, 0)
    } else {
        None
    }
}

/// The interval at `pos`, and the position behind it: a number, or two
/// numbers with a hyphen between them, the first not zero and not above the
/// second.
pub open spec fn interval_at(s: Seq<u8>, pos: int) -> Option<(Interval, int)> {
    match number_at(s, pos) {
        None => None,
        Some((first, at)) => if 0 <= at < s.len() && s[at] == 45 {
            match number_at(s, at + 1) {
                None => None,
                Some((last, next)) => if first < 1 || last < first || last >= u64::MAX {
                    None
                } else {
                    Some((Interval { start: first as u64, end: (last + 1) as u64 }, next))
                },
            }
        } else if first < 1 || first >= u64::MAX {
            None
        } else {
            Some((Interval { start: first as u64, end: (first + 1) as u64 }, at))
        },
    }
}

/// The intervals from `pos` on, each behind a colon, appended to `acc`,
/// and the position behind the last.
pub open spec fn intervals_from(s: Seq<u8>, pos: int, acc: Seq<Interval>) -> Option<
    (Seq<Interval>, int),
>
    decreases s.len() - pos,
{
    if 0 <= pos < s.len() && s[pos] == 58 {
        match interval_at(s, pos + 1) {
            None => None,
            Some((interval, next)) => if next <= pos || next > s.len() {
                None
            } else {
                intervals_from(s, next, acc.push(interval))
            },
        }
    } else {
        Some((acc, pos))
    }
}

/// The set of one server at `pos`, and the position behind it: the UUID
/// and one interval at least.
pub open spec fn uuid_set_at(s: Seq<u8>, pos: int) -> Option<(UuidSetView, int)> {
    match uuid_at(s, pos) {
        None => None,
        Some(id) => match intervals_from(s, pos + 36, Seq::empty()) {
            None => None,
            Some((intervals, next)) => if intervals.len() == 0 {
                None
            } else {
                Some((UuidSetView { source_id: id as u128, intervals }, next))
            },
        },
    }
}

/// The sets from `pos` on, appended to `acc`: sets of one server each,
/// with commas between them and white space allowed around them.
pub open spec fn sets_from(s: Seq<u8>, pos: int, acc: Seq<UuidSetView>) -> Option<Seq<UuidSetView>>
    decreases s.len() - pos,
{
    match uuid_set_at(s, skip_spaces(s, pos)) {
        None => None,
        Some((set, next)) => if next <= pos || skip_spaces(s, next) <= pos {
            None
        } else if skip_spaces(s, next) >= s.len() {
            Some(acc.push(set))
        } else if s[skip_spaces(s, next)] == 44 {
            sets_from(s, skip_spaces(s, next) + 1, acc.push(set))
        } else {
            None
        },
    }
}

/// The GTID set that the text `s` names: nothing for a text of white
/// space only, and otherwise sets as `sets_from` reads them, in the order
/// of the text. `None` for a malformed text.
pub open spec fn gtid_set_of(s: Seq<u8>) -> Option<Seq<UuidSetView>> {
    if skip_spaces(s, 0) >= s.len() {
        Some(Seq::empty())
    } else {
        sets_from(s, 0, Seq::empty())
    }
}

impl Interval {
    /// Whether the interval holds a transaction: its numbers start at 1,
    /// and it ends behind its start.
    pub open spec fn wf(self) -> bool {
        1 <= self.start < self.end
    }
}

/// Whether every interval of `intervals` holds a transaction.
pub open spec fn intervals_wf(intervals: Seq<Interval>) -> bool {
    forall|i: int| 0 <= i < intervals.len() ==> (#[trigger] intervals[i]).wf()
}

/// Whether every set of `sets` has an interval, and every interval holds a
/// transaction.
pub open spec fn sets_wf(sets: Seq<UuidSetView>) -> bool {
    forall|i: int|
        0 <= i < sets.len() ==> (#[trigger] sets[i]).intervals.len() >= 1 && intervals_wf(
            sets[i].intervals,
        )
}

/// The intervals that are read hold a transaction each.
pub proof fn lemma_intervals_are_well_formed(s: Seq<u8>, pos: int, acc: Seq<Interval>)
    requires
        intervals_wf(acc),
    ensures
        intervals_from(s, pos, acc) matches Some((intervals, _)) ==> intervals_wf(intervals),
    decreases s.len() - pos,
{
    if 0 <= pos < s.len() && s[pos] == 58 {
        if let Some((interval, next)) = interval_at(s, pos + 1) {
            if next > pos && next <= s.len() {
                let more = acc.push(interval);
                assert(intervals_wf(more)) by {
                    assert forall|i: int| 0 <= i < more.len() implies (#[trigger] more[i]).wf() by {
                        if i < acc.len() {
                            assert(more[i] == acc[i]);
                        }
                    }
                }
                lemma_intervals_are_well_formed(s, next, more);
            }
        }
    }
}

/// The sets that are read have an interval each, and every interval
/// holds a transaction.
pub proof fn lemma_sets_are_well_formed(s: Seq<u8>, pos: int, acc: Seq<UuidSetView>)
    requires
        sets_wf(acc),
    ensures
        sets_from(s, pos, acc) matches Some(sets) ==> sets_wf(sets),
    decreases s.len() - pos,
{
    let at = skip_spaces(s, pos);
    if let Some((set, next)) = uuid_set_at(s, at) {
        lemma_intervals_are_well_formed(s, at + 36, Seq::empty());
        let more = acc.push(set);
        assert(sets_wf(more)) by {
            assert forall|i: int| 0 <= i < more.len() implies (#[trigger] more[i]).intervals.len()
                >= 1 && intervals_wf(more[i].intervals) by {
                if i < acc.len() {
                    assert(more[i] == acc[i]);
                }
            }
        }
        let comma = skip_spaces(s, next);
        if next > pos && comma > pos && comma < s.len() && s[comma] == 44 {
            lemma_sets_are_well_formed(s, comma + 1, more);
        }
    }
}

/// A GTID set that is read from its text is well formed.
pub proof fn lemma_gtid_set_is_well_formed(s: Seq<u8>)
    ensures
        gtid_set_of(s) matches Some(sets) ==> sets_wf(sets),
{
    lemma_sets_are_well_formed(s, 0, Seq::empty());
}

/// The bytes of `v` as a little-endian number of 8 bytes.
pub open spec fn le_bytes8(v: u64) -> Seq<u8> {
    le_bytes(v as int, 8)
}

/// The bytes of `v` as a big-endian number of 16 bytes.
pub open spec fn be_bytes16(v: u128) -> Seq<u8> {
    Seq::new(16, |i: int| byte_of(v as int, (15 - i) as nat))
}

/// The intervals from `i` on as the server reads them, appended to `acc`:
/// of each its start and its end, 8 bytes each.
pub open spec fn encoded_intervals(intervals: Seq<Interval>, i: int, acc: Seq<u8>) -> Seq<u8>
    decreases intervals.len() - i,
{
    if i < 0 || i >= intervals.len() {
        acc
    } else {
        encoded_intervals(
            intervals,
            i + 1,
            acc + le_bytes8(intervals[i].start) + le_bytes8(intervals[i].end),
        )
    }
}

/// The sets from `i` on as the server reads them, appended to `acc`: of
/// each the 16 bytes of the UUID, the number of its intervals in 8 bytes,
/// and the intervals.
pub open spec fn encoded_sets(sets: Seq<UuidSetView>, i: int, acc: Seq<u8>) -> Seq<u8>
    decreases sets.len() - i,
{
    if i < 0 || i >= sets.len() {
        acc
    } else {
        encoded_sets(
            sets,
            i + 1,
            encoded_intervals(
                sets[i].intervals,
                0,
                acc + be_bytes16(sets[i].source_id) + le_bytes8(sets[i].intervals.len() as u64),
            ),
        )
    }
}

/// A GTID set as the server reads it: the number of its sets in 8 bytes,
/// then the sets.
pub open spec fn encoded_gtid_set(sets: Seq<UuidSetView>) -> Seq<u8> {
    encoded_sets(sets, 0, le_bytes8(sets.len() as u64))
}

/// Appends the 16 bytes of `v`, highest first.
fn push_be16(out: &mut Vec<u8>, v: u128)
    ensures
        final(out)@ == old(out)@ + be_bytes16(v),
{
    let mut low: Vec<u8> = Vec::new();
    let mut i: usize = 0;
    let mut rest: u128 = v;
    proof {
        lemma_pow256_values();
    }
    while i < 16
        invariant
            i <= 16,
            rest == v as int / pow256(i as nat) as int,
            low@ == Seq::new(i as nat, |k: int| byte_of(v as int, k as nat)),
        decreases 16 - i,
    {
        low.push((rest % 256) as u8);
        proof {
            lemma_pow256_monotonic(i as nat, i as nat);
            let p = pow256(i as nat) as int;
            assert(pow256((i + 1) as nat) == 256 * p);
            vstd::arithmetic::div_mod::lemma_div_denominator(v as int, p, 256);
            assert(p * 256 == 256 * p);
        }
        rest = rest / 256;
        i = i + 1;
        assert(low@ =~= Seq::new(i as nat, |k: int| byte_of(v as int, k as nat)));
    }
    let mut j: usize = 0;
    while j < 16
        invariant
            j <= 16,
            low@ == Seq::new(16, |k: int| byte_of(v as int, k as nat)),
            out@ == old(out)@ + Seq::new(j as nat, |k: int| byte_of(v as int, (15 - k) as nat)),
        decreases 16 - j,
    {
        out.push(low[15 - j]);
        j = j + 1;
        assert(out@ =~= old(out)@ + Seq::new(
            j as nat,
            |k: int| byte_of(v as int, (15 - k) as nat),
        ));
    }
}

/// `16` to the power `n`.
pub open spec fn pow16(n: nat) -> nat
    decreases n,
{
    if n == 0 {
        1
    } else {
        16 * pow16((n - 1) as nat)
    }
}

/// A greater exponent gives no smaller power of 16; the fifteenth and
/// sixteenth powers.
proof fn lemma_pow16(a: nat, b: nat)
    requires
        a <= b,
    ensures
        1 <= pow16(a) <= pow16(b),
        pow16(15) == 0x1000_0000_0000_0000,
        pow16(16) == 0x1_0000_0000_0000_0000,
    decreases b,
{
    reveal_with_fuel(pow16, 18);
    if a < b {
        lemma_pow16(a, (b - 1) as nat);
    } else if a > 0 {
        lemma_pow16((a - 1) as nat, (a - 1) as nat);
    }
}

/// The value of the hexadecimal digit `c`.
pub fn hex_of(c: u8) -> (r: Option<u8>)
    ensures
        match hex_value(c) {
            Some(d) => r == Some(d as u8) && 0 <= d < 16,
            None => r is None,
        },
{
    if 48 <= c && c <= 57 {
        Some(c - 48)
    } else if 97 <= c && c <= 102 {
        Some(c - 87)
    } else if 65 <= c && c <= 70 {
        Some(c - 55)
    } else {
        None
    }
}

/// Finds the first position from `pos` on that holds no white space.
fn skip_spaces_in(buf: &[u8], pos: usize) -> (next: usize)
    ensures
        next == skip_spaces(buf@, pos as int),
        pos <= next,
        pos <= buf@.len() ==> next <= buf@.len(),
{
    let mut at: usize = pos;
    while at < buf.len() && (buf[at] == 32 || buf[at] == 9 || buf[at] == 10 || buf[at] == 13)
        invariant
            pos <= at,
            pos <= buf@.len() ==> at <= buf@.len(),
            skip_spaces(buf@, pos as int) == skip_spaces(buf@, at as int),
        decreases buf@.len() - at,
    {
        at = at + 1;
    }
    at
}

/// Reads 16 hexadecimal digits of a UUID, from digit `first` on.
fn read_uuid_half(buf: &[u8], pos: usize, first: usize) -> (r: Option<u64>)
    requires
        first == 0 || first == 16,
        pos + 36 <= buf@.len(),
    ensures
        match uuid_from(buf@, pos as int, first as int, first + 16, 0) {
            Some(v) => r == Some(v as u64) && 0 <= v <= u64::MAX,
            None => r is None,
        },
{
    let total: usize = buf.len();
    let mut acc: u64 = 0;
    let mut k: usize = first;
    proof {
        lemma_pow16(0, 0);
    }
    while k < first + 16
        invariant
            first <= k <= first + 16,
            first == 0 || first == 16,
            pos + 36 <= total == buf@.len(),
            acc < pow16((k - first) as nat),
            uuid_from(buf@, pos as int, first as int, first + 16, 0) == uuid_from(
                buf@,
                pos as int,
                k as int,
                first + 16,
                acc as int,
            ),
        decreases first + 16 - k,
    {
        let at: usize = if k < 8 {
            k
        } else if k < 12 {
            k + 1
        } else if k < 16 {
            k + 2
        } else if k < 20 {
            k + 3
        } else {
            k + 4
        };
        proof {
            lemma_pow16((k - first) as nat, 15);
        }
        match hex_of(buf[pos + at]) {
            None => {
                return None;
            },
            Some(d) => {
                acc = acc * 16 + d as u64;
            },
        }
        k = k + 1;
    }
    proof {
        lemma_pow16(16, 16);
    }
    Some(acc)
}

/// Reads the UUID at `pos`.
fn read_uuid(buf: &[u8], pos: usize) -> (r: Option<u128>)
    ensures
        match uuid_at(buf@, pos as int) {
            Some(v) => r == Some(v as u128) && 0 <= v <= u128::MAX && pos + 36 <= buf@.len()
                <= usize::MAX,
            None => r is None,
        },
{
    if pos > buf.len() || buf.len() - pos < 36 {
        return None;
    }
    if buf[pos + 8] != 45 || buf[pos + 13] != 45 || buf[pos + 18] != 45 || buf[pos + 23] != 45 {
        return None;
    }
    let high: u64 = match read_uuid_half(buf, pos, 0) {
        Some(v) => v,
        None => {
            return None;
        },
    };
    let low: u64 = match read_uuid_half(buf, pos, 16) {
        Some(v) => v,
        None => {
            return None;
        },
    };
    Some(high as u128 * 0x1_0000_0000_0000_0000 + low as u128)
}

/// Reads the decimal number at `pos`.
pub fn read_number(buf: &[u8], pos: usize) -> (r: Option<(u64, usize)>)
    ensures
        match number_at(buf@, pos as int) {
            Some((v, next)) => r == Some((v as u64, next as usize)) && 0 <= v <= u64::MAX && pos
                < next <= buf@.len(),
            None => r is None,
        },
{
    if pos >= buf.len() || buf[pos] < 48 || buf[pos] > 57 {
        return None;
    }
    let mut acc: u64 = 0;
    let mut at: usize = pos;
    while at < buf.len() && 48 <= buf[at] && buf[at] <= 57
        invariant
            pos <= at <= buf@.len(),
            at == pos ==> 48 <= buf@[pos as int] <= 57,
            number_from(buf@, pos as int, 0) == number_from(buf@, at as int, acc as int),
        decreases buf@.len() - at,
    {
        let d: u64 = (buf[at] - 48) as u64;
        if acc > (u64::MAX - d) / 10 {
            return None;
        }
        acc = acc * 10 + d;
        at = at + 1;
    }
    Some((acc, at))
}

/// Reads the interval at `pos`.
fn read_interval(buf: &[u8], pos: usize) -> (r: Option<(Interval, usize)>)
    ensures
        match interval_at(buf@, pos as int) {
            Some((v, next)) => r == Some((v, next as usize)) && pos < next <= buf@.len(),
            None => r is None,
        },
{
    let (first, at) = match read_number(buf, pos) {
        Some(found) => found,
        None => {
            return None;
        },
    };
    if at < buf.len() && buf[at] == 45 {
        let (last, next) = match read_number(buf, at + 1) {
            Some(found) => found,
            None => {
                return None;
            },
        };
        if first < 1 || last < first || last >= u64::MAX {
            return None;
        }
        Some((Interval { start: first, end: last + 1 }, next))
    } else if first < 1 || first >= u64::MAX {
        None
    } else {
        Some((Interval { start: first, end: first + 1 }, at))
    }
}

/// Reads the set of one server at `pos`.
fn read_uuid_set(buf: &[u8], pos: usize) -> (r: Option<(UuidSet, usize)>)
    ensures
        match uuid_set_at(buf@, pos as int) {
            Some((v, next)) => r matches Some((u, n)) && u@ == v && n == next && pos < next
                <= buf@.len(),
            None => r is None,
        },
{
    let source_id: u128 = match read_uuid(buf, pos) {
        Some(v) => v,
        None => {
            return None;
        },
    };
    let start: usize = pos + 36;
    let mut intervals: Vec<Interval> = Vec::new();
    let mut at: usize = start;
    while at < buf.len() && buf[at] == 58
        invariant
            start <= at <= buf@.len(),
            start == pos + 36,
            uuid_at(buf@, pos as int) == Some(source_id as int),
            intervals_from(buf@, start as int, Seq::empty()) == intervals_from(
                buf@,
                at as int,
                intervals@,
            ),
        decreases buf@.len() - at,
    {
        match read_interval(buf, at + 1) {
            None => {
                return None;
            },
            Some((interval, next)) => {
                intervals.push(interval);
                at = next;
            },
        }
    }
    if intervals.len() == 0 {
        return None;
    }
    Some((UuidSet { source_id, intervals }, at))
}

impl GtidSet {
    /// Reads a GTID set from its text, such as
    /// `3e11fa47-71ca-11e1-9e33-c80aa9429562:1-5:11`. Fails with `Format`
    /// exactly when the text is malformed.
    pub fn parse(text: &[u8]) -> (r: Result<GtidSet, BinlogError>)
        ensures
            match gtid_set_of(text@) {
                Some(v) => r matches Ok(g) && g@ == v && sets_wf(v),
                None => r matches Err(e) && e == BinlogError::Format,
            },
    {
        proof {
            lemma_gtid_set_is_well_formed(text@);
        }
        let mut sets: Vec<UuidSet> = Vec::new();
        assert(sets_view(sets@) =~= Seq::empty());
        if skip_spaces_in(text, 0) >= text.len() {
            return Ok(GtidSet { sets });
        }
        let mut pos: usize = 0;
        loop
            invariant
                pos <= text@.len(),
                gtid_set_of(text@) is Some ==> sets_wf(gtid_set_of(text@).unwrap()),
                gtid_set_of(text@) == sets_from(text@, pos as int, sets_view(sets@)),
            decreases text@.len() - pos,
        {
            let ghost before = sets@;
            let (set, next) = match read_uuid_set(text, skip_spaces_in(text, pos)) {
                Some(found) => found,
                None => {
                    return Err(BinlogError::Format);
                },
            };
            sets.push(set);
            assert(sets_view(sets@) =~= sets_view(before).push(set@));
            let after: usize = skip_spaces_in(text, next);
            if after >= text.len() {
                return Ok(GtidSet { sets });
            }
            if text[after] != 44 {
                return Err(BinlogError::Format);
            }
            pos = after + 1;
        }
    }

    /// The set as the server reads it in a dump request.
    pub fn encode(&self) -> (bytes: Vec<u8>)
        ensures
            bytes@ == encoded_gtid_set(self@),
    {
        let mut bytes: Vec<u8> = Vec::new();
        push_le(&mut bytes, self.sets.len() as u64, 8);
        assert(bytes@ =~= le_bytes8(self@.len() as u64));
        let mut i: usize = 0;
        while i < self.sets.len()
            invariant
                i <= self.sets@.len(),
                encoded_gtid_set(self@) == encoded_sets(self@, i as int, bytes@),
            decreases self.sets@.len() - i,
        {
            let set: &UuidSet = &self.sets[i];
            assert(self@[i as int] == set@);
            push_be16(&mut bytes, set.source_id);
            push_le(&mut bytes, set.intervals.len() as u64, 8);
            let ghost head = bytes@;
            let mut j: usize = 0;
            while j < set.intervals.len()
                invariant
                    j <= set.intervals@.len(),
                    encoded_intervals(set@.intervals, 0, head) == encoded_intervals(
                        set@.intervals,
                        j as int,
                        bytes@,
                    ),
                decreases set.intervals@.len() - j,
            {
                push_le(&mut bytes, set.intervals[j].start, 8);
                push_le(&mut bytes, set.intervals[j].end, 8);
                j = j + 1;
            }
            i = i + 1;
        }
        bytes
    }
}

} // verus!
