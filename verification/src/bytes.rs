//! Integers and bitmaps in byte strings: what bytes mean as numbers, and
//! readers and writers proved against that meaning.

use vstd::prelude::*;

verus! {

/// `256` to the power `n`.
pub open spec fn pow256(n: nat) -> nat
    decreases n,
{
    if n == 0 {
        1
    } else {
        256 * pow256((n - 1) as nat)
    }
}

/// The unsigned integer whose little-endian encoding is the `n` bytes of `s`
/// that start at `pos`.
pub open spec fn le_at(s: Seq<u8>, pos: int, n: nat) -> nat
    decreases n,
{
    if n == 0 {
        0
    } else {
        s[pos] as nat + 256 * le_at(s, pos + 1, (n - 1) as nat)
    }
}

/// The unsigned integer whose big-endian encoding is the `n` bytes of `s`
/// that start at `pos`.
pub open spec fn be_at(s: Seq<u8>, pos: int, n: nat) -> nat
    decreases n,
{
    if n == 0 {
        0
    } else {
        256 * be_at(s, pos, (n - 1) as nat) + s[pos + n - 1] as nat
    }
}

/// Whether the `n` bytes from `pos` on lie inside `s`.
pub open spec fn in_bounds(s: Seq<u8>, pos: int, n: int) -> bool {
    0 <= pos && 0 <= n && pos + n <= s.len()
}

/// The two's-complement reading of an unsigned value of `n` bytes.
pub open spec fn signed(v: nat, n: nat) -> int {
    if 2 * v < pow256(n) {
        v as int
    } else {
        v - pow256(n)
    }
}

/// The powers of 256 up to the eighth.
pub proof fn lemma_pow256_values()
    ensures
        pow256(0) == 1,
        pow256(1) == 0x100,
        pow256(2) == 0x1_0000,
        pow256(3) == 0x100_0000,
        pow256(4) == 0x1_0000_0000,
        pow256(5) == 0x100_0000_0000,
        pow256(6) == 0x1_0000_0000_0000,
        pow256(7) == 0x100_0000_0000_0000,
        pow256(8) == 0x1_0000_0000_0000_0000,
{
    reveal_with_fuel(pow256, 10);
}

/// A greater exponent gives no smaller power, and no power is zero.
pub proof fn lemma_pow256_monotonic(a: nat, b: nat)
    requires
        a <= b,
    ensures
        pow256(a) <= pow256(b),
        pow256(a) >= 1,
    decreases b,
{
    if a < b {
        lemma_pow256_monotonic(a, (b - 1) as nat);
    } else if a > 0 {
        lemma_pow256_monotonic((a - 1) as nat, (a - 1) as nat);
    }
}

/// A little-endian value of `n` bytes is below `256` to the power `n`.
pub proof fn lemma_le_at_bound(s: Seq<u8>, pos: int, n: nat)
    ensures
        le_at(s, pos, n) < pow256(n),
    decreases n,
{
    if n > 0 {
        lemma_le_at_bound(s, pos + 1, (n - 1) as nat);
    }
}

/// A big-endian value of `n` bytes is below `256` to the power `n`.
pub proof fn lemma_be_at_bound(s: Seq<u8>, pos: int, n: nat)
    ensures
        be_at(s, pos, n) < pow256(n),
    decreases n,
{
    if n > 0 {
        lemma_be_at_bound(s, pos, (n - 1) as nat);
    }
}

/// Reads `n` bytes at `pos` as a little-endian unsigned integer.
pub fn read_le(buf: &[u8], pos: usize, n: usize) -> (v: u64)
    requires
        n <= 8,
        in_bounds(buf@, pos as int, n as int),
    ensures
        v == le_at(buf@, pos as int, n as nat),
{
    let total: usize = buf.len();
    let mut v: u64 = 0;
    let mut i: usize = n;
    while i > 0
        invariant
            i <= n <= 8,
            pos + n <= total == buf@.len(),
            v == le_at(buf@, pos + i, (n - i) as nat),
        decreases i,
    {
        proof {
            lemma_le_at_bound(buf@, pos + i, (n - i) as nat);
            lemma_pow256_monotonic((n - i) as nat, 7);
            lemma_pow256_values();
        }
        i = i - 1;
        v = v * 256 + buf[pos + i] as u64;
    }
    v
}

/// Reads `n` bytes at `pos` as a big-endian unsigned integer.
pub fn read_be(buf: &[u8], pos: usize, n: usize) -> (v: u64)
    requires
        n <= 8,
        in_bounds(buf@, pos as int, n as int),
    ensures
        v == be_at(buf@, pos as int, n as nat),
{
    let total: usize = buf.len();
    let mut v: u64 = 0;
    let mut i: usize = 0;
    while i < n
        invariant
            i <= n <= 8,
            pos + n <= total == buf@.len(),
            v == be_at(buf@, pos as int, i as nat),
        decreases n - i,
    {
        proof {
            lemma_be_at_bound(buf@, pos as int, i as nat);
            lemma_pow256_monotonic(i as nat, 7);
            lemma_pow256_values();
        }
        v = v * 256 + buf[pos + i] as u64;
        i = i + 1;
    }
    v
}

/// Whether `n` more bytes can be read at `pos`.
pub fn fits(buf: &[u8], pos: usize, n: usize) -> (b: bool)
    ensures
        b == in_bounds(buf@, pos as int, n as int),
        buf@.len() <= usize::MAX,
{
    pos <= buf.len() && n <= buf.len() - pos
}

/// Copies the bytes from `start` up to `end`.
pub fn copy_range(buf: &[u8], start: usize, end: usize) -> (v: Vec<u8>)
    requires
        start <= end <= buf@.len(),
    ensures
        v@ == buf@.subrange(start as int, end as int),
{
    vstd::slice::slice_to_vec(vstd::slice::slice_subrange(buf, start, end))
}

/// The integer in MySQL's length-encoded form at `pos`, and the position
/// behind it. A first byte below 251 is the value itself; 252, 253 and 254
/// announce a little-endian value of 2, 3 and 8 bytes. `None` when bytes are
/// missing or the first byte is 251 or 255, which encode no integer.
pub open spec fn packed_at(s: Seq<u8>, pos: int) -> Option<(nat, int)> {
    if !in_bounds(s, pos, 1) {
        None
    } else if s[pos] < 251 {
        Some((s[pos] as nat, pos + 1))
    } else if s[pos] == 252 && in_bounds(s, pos + 1, 2) {
        Some((le_at(s, pos + 1, 2), pos + 3))
    } else if s[pos] == 253 && in_bounds(s, pos + 1, 3) {
        Some((le_at(s, pos + 1, 3), pos + 4))
    } else if s[pos] == 254 && in_bounds(s, pos + 1, 8) {
        Some((le_at(s, pos + 1, 8), pos + 9))
    } else {
        None
    }
}

/// Reads a length-encoded integer.
pub fn read_packed(buf: &[u8], pos: usize) -> (r: Option<(u64, usize)>)
    ensures
        match packed_at(buf@, pos as int) {
            Some((value, next)) => r == Some((value as u64, next as usize)) && value
                <= u64::MAX && next <= buf@.len(),
            None => r is None,
        },
{
    if !fits(buf, pos, 1) {
        return None;
    }
    let first: u8 = buf[pos];
    let width: usize = if first < 251 {
        return Some((first as u64, pos + 1));
    } else if first == 252 {
        2
    } else if first == 253 {
        3
    } else if first == 254 {
        8
    } else {
        return None;
    };
    if !fits(buf, pos + 1, width) {
        return None;
    }
    proof {
        lemma_le_at_bound(buf@, pos + 1, width as nat);
        lemma_pow256_values();
    }
    Some((read_le(buf, pos + 1, width), pos + 1 + width))
}

/// The weight of bit `k` of a byte.
pub open spec fn bit_weight(k: int) -> int {
    if k == 0 {
        1
    } else if k == 1 {
        2
    } else if k == 2 {
        4
    } else if k == 3 {
        8
    } else if k == 4 {
        16
    } else if k == 5 {
        32
    } else if k == 6 {
        64
    } else {
        128
    }
}

/// Bit `i` of the bitmap that starts at `pos`, lowest bit of each byte first.
pub open spec fn bit_at(s: Seq<u8>, pos: int, i: int) -> bool {
    (s[pos + i / 8] as int / bit_weight(i % 8)) % 2 == 1
}

/// The first `n` bits of the bitmap that starts at `pos`.
pub open spec fn bits_at(s: Seq<u8>, pos: int, n: int) -> Seq<bool> {
    Seq::new(n as nat, |i: int| bit_at(s, pos, i))
}

/// Reads bit `i` of the bitmap that starts at `pos`.
pub fn read_bit(buf: &[u8], pos: usize, i: usize) -> (b: bool)
    requires
        in_bounds(buf@, pos as int, i / 8 + 1),
    ensures
        b == bit_at(buf@, pos as int, i as int),
{
    let total: usize = buf.len();
    let byte: u8 = buf[pos + i / 8];
    let k: usize = i % 8;
    let weight: u8 = if k == 0 {
        1
    } else if k == 1 {
        2
    } else if k == 2 {
        4
    } else if k == 3 {
        8
    } else if k == 4 {
        16
    } else if k == 5 {
        32
    } else if k == 6 {
        64
    } else {
        128
    };
    (byte / weight) % 2 == 1
}

/// Reads the first `n` bits of the bitmap that starts at `pos`.
pub fn read_bits(buf: &[u8], pos: usize, n: usize) -> (bits: Vec<bool>)
    requires
        in_bounds(buf@, pos as int, (n + 7) / 8),
    ensures
        bits@ == bits_at(buf@, pos as int, n as int),
{
    let mut bits: Vec<bool> = Vec::new();
    let mut i: usize = 0;
    while i < n
        invariant
            i <= n,
            in_bounds(buf@, pos as int, (n + 7) / 8),
            bits@ == bits_at(buf@, pos as int, i as int),
        decreases n - i,
    {
        bits.push(read_bit(buf, pos, i));
        i = i + 1;
        assert(bits@ =~= bits_at(buf@, pos as int, i as int));
    }
    bits
}

/// Byte `i` of `v`, the lowest being byte 0.
pub open spec fn byte_of(v: int, i: nat) -> u8 {
    ((v / pow256(i) as int) % 256) as u8
}

/// The `n` lowest bytes of `v`, lowest first.
pub open spec fn le_bytes(v: int, n: nat) -> Seq<u8> {
    Seq::new(n, |i: int| byte_of(v, i as nat))
}

/// Appends `v` as a little-endian number of `n` bytes.
pub fn push_le(out: &mut Vec<u8>, v: u64, n: usize)
    requires
        n <= 8,
    ensures
        final(out)@ == old(out)@ + le_bytes(v as int, n as nat),
{
    let mut i: usize = 0;
    let mut rest: u64 = v;
    proof {
        lemma_pow256_values();
    }
    while i < n
        invariant
            i <= n <= 8,
            rest == v as int / pow256(i as nat) as int,
            out@ == old(out)@ + le_bytes(v as int, i as nat),
        decreases n - i,
    {
        out.push((rest % 256) as u8);
        proof {
            lemma_pow256_monotonic(i as nat, i as nat);
            let p = pow256(i as nat) as int;
            assert(pow256((i + 1) as nat) == 256 * p);
            vstd::arithmetic::div_mod::lemma_div_denominator(v as int, p, 256);
            assert(p * 256 == 256 * p);
        }
        rest = rest / 256;
        i = i + 1;
        assert(out@ =~= old(out)@ + le_bytes(v as int, i as nat));
    }
}

/// Reading back the little-endian bytes of a number gives the number,
/// as far as the bytes hold it.
pub proof fn lemma_le_bytes_read_back(v: int, n: nat, before: Seq<u8>, after: Seq<u8>)
    requires
        0 <= v,
    ensures
        le_at(before + le_bytes(v, n) + after, before.len() as int, n) == v % pow256(n) as int,
    decreases n,
{
    let s = before + le_bytes(v, n) + after;
    let pos = before.len() as int;
    lemma_le_digits(v, n, s, pos, 0);
    lemma_pow256_values();
}

/// The value of the bytes from digit `k` on of a number written at `pos`.
#[verifier::rlimit(40)]
proof fn lemma_le_digits(v: int, n: nat, s: Seq<u8>, pos: int, k: nat)
    requires
        0 <= v,
        0 <= pos,
        k <= n,
        pos + n <= s.len(),
        forall|i: int| 0 <= i < n ==> #[trigger] s[pos + i] == byte_of(v, i as nat),
    ensures
        le_at(s, pos + k, (n - k) as nat) == (v / pow256(k) as int) % pow256((n - k) as nat) as int,
    decreases n - k,
{
    lemma_pow256_monotonic(k, k);
    let p = pow256(k) as int;
    if k < n {
        lemma_le_digits(v, n, s, pos, k + 1);
        let q = pow256((n - k - 1) as nat) as int;
        lemma_pow256_monotonic((n - k - 1) as nat, (n - k - 1) as nat);
        assert(s[pos + k] == byte_of(v, k));
        let x = v / p;
        vstd::arithmetic::div_mod::lemma_div_denominator(v, p, 256);
        assert(p * 256 == 256 * p);
        assert(pow256(k + 1) == 256 * p);
        assert(pow256((n - k) as nat) == 256 * q);
        assert(x >= 0) by (nonlinear_arith)
            requires
                p > 0,
                v >= 0,
                x == v / p,
        ;
        vstd::arithmetic::div_mod::lemma_mod_breakdown(x, 256, q);
    } else {
        assert(pow256(0) == 1);
    }
}

/// The `n` lowest bytes of `v`, highest first.
pub open spec fn be_bytes(v: int, n: nat) -> Seq<u8> {
    Seq::new(n, |i: int| byte_of(v, (n - 1 - i) as nat))
}

/// Reading back the big-endian bytes of a number gives the number, as far
/// as the bytes hold it.
pub proof fn lemma_be_bytes_read_back(v: int, n: nat, before: Seq<u8>, after: Seq<u8>)
    requires
        0 <= v,
    ensures
        be_at(before + be_bytes(v, n) + after, before.len() as int, n) == v % pow256(n) as int,
{
    let s = before + be_bytes(v, n) + after;
    let pos = before.len() as int;
    assert forall|i: int| 0 <= i < n implies #[trigger] s[pos + i] == byte_of(
        v,
        (n - 1 - i) as nat,
    ) by {
        assert(s[pos + i] == be_bytes(v, n)[i]);
    }
    lemma_be_digits(v, n, s, pos);
}

/// The value of the first `n` bytes of a number written highest byte
/// first at `pos`, where byte `i` is byte `n - 1 - i` of `v`.
#[verifier::rlimit(40)]
proof fn lemma_be_digits(v: int, n: nat, s: Seq<u8>, pos: int)
    requires
        0 <= v,
        forall|i: int| 0 <= i < n ==> #[trigger] s[pos + i] == byte_of(v, (n - 1 - i) as nat),
    ensures
        be_at(s, pos, n) == v % pow256(n) as int,
    decreases n,
{
    lemma_pow256_values();
    if n > 0 {
        let m = (n - 1) as nat;
        let q = pow256(m) as int;
        lemma_pow256_monotonic(m, m);
        assert forall|i: int| 0 <= i < m implies #[trigger] s[pos + i] == byte_of(
            v / 256,
            (m - 1 - i) as nat,
        ) by {
            let k = (m - 1 - i) as nat;
            let p = pow256(k) as int;
            lemma_pow256_monotonic(k, k);
            assert(s[pos + i] == byte_of(v, (n - 1 - i) as nat));
            assert(pow256((k + 1) as nat) == 256 * p);
            vstd::arithmetic::div_mod::lemma_div_denominator(v, 256, p);
        }
        lemma_be_digits(v / 256, m, s, pos);
        assert(s[pos + (n - 1)] == byte_of(v, 0));
        assert(pow256(0) == 1);
        assert(pow256(n) == 256 * q);
        vstd::arithmetic::div_mod::lemma_mod_breakdown(v, 256, q);
    } else {
        assert(pow256(0) == 1);
    }
}

} // verus!
