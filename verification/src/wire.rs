//! Little-endian integers in byte strings.
use vstd::prelude::*;

verus! {

/// The four bytes at `at`, read as a little-endian number.
pub open spec fn le4(s: Seq<u8>, at: int) -> int {
    s[at] + s[at + 1] * 0x100 + s[at + 2] * 0x1_0000 + s[at + 3] * 0x100_0000
}

/// The eight bytes at `at`, read as a little-endian number.
pub open spec fn le8(s: Seq<u8>, at: int) -> int {
    le4(s, at) + le4(s, at + 4) * 0x1_0000_0000
}

/// The sixteen bytes at `at`, read as a little-endian number.
pub open spec fn le16(s: Seq<u8>, at: int) -> int {
    le8(s, at) + le8(s, at + 8) * 0x1_0000_0000_0000_0000
}

/// The number that the two's complement bit pattern `u` stands for.
pub open spec fn signed128(u: int) -> int {
    if u < 0x8000_0000_0000_0000_0000_0000_0000_0000 {
        u
    } else {
        u - 0x1_0000_0000_0000_0000_0000_0000_0000_0000
    }
}

/// The four little-endian bytes of `x`.
pub open spec fn le4_bytes(x: int) -> Seq<u8> {
    seq![
        (x % 0x100) as u8,
        (x / 0x100 % 0x100) as u8,
        (x / 0x1_0000 % 0x100) as u8,
        (x / 0x100_0000 % 0x100) as u8,
    ]
}

/// The eight little-endian bytes of `x`.
pub open spec fn le8_bytes(x: int) -> Seq<u8> {
    le4_bytes(x % 0x1_0000_0000) + le4_bytes(x / 0x1_0000_0000)
}

/// The sixteen little-endian bytes of the two's complement form of `x`.
pub open spec fn le16_bytes(x: i128) -> Seq<u8> {
    let u = if x >= 0 {
        x as int
    } else {
        x + 0x1_0000_0000_0000_0000_0000_0000_0000_0000
    };
    le8_bytes(u % 0x1_0000_0000_0000_0000) + le8_bytes(u / 0x1_0000_0000_0000_0000)
}

pub proof fn le4_range(s: Seq<u8>, at: int)
    ensures
        0 <= le4(s, at) < 0x1_0000_0000,
{
}

pub proof fn le8_range(s: Seq<u8>, at: int)
    ensures
        0 <= le8(s, at) < 0x1_0000_0000_0000_0000,
{
    le4_range(s, at);
    le4_range(s, at + 4);
}

/// Reading four written bytes gives the number back.
pub proof fn le4_round_trip(x: int)
    requires
        0 <= x < 0x1_0000_0000,
    ensures
        le4_bytes(x).len() == 4,
        le4(le4_bytes(x), 0) == x,
{
    let q1 = x / 0x100;
    let q2 = q1 / 0x100;
    let q3 = q2 / 0x100;
    assert(q2 == x / 0x1_0000);
    assert(q3 == x / 0x100_0000);
    assert(0 <= q3 < 0x100);
}

/// Reading eight written bytes gives the number back.
pub proof fn le8_round_trip(x: int)
    requires
        0 <= x < 0x1_0000_0000_0000_0000,
    ensures
        le8_bytes(x).len() == 8,
        le8(le8_bytes(x), 0) == x,
{
    let lo = x % 0x1_0000_0000;
    let hi = x / 0x1_0000_0000;
    le4_round_trip(lo);
    le4_round_trip(hi);
    let b = le8_bytes(x);
    assert(forall|k: int| 0 <= k < 4 ==> b[k] == le4_bytes(lo)[k]);
    assert(forall|k: int| 0 <= k < 4 ==> b[4 + k] == le4_bytes(hi)[k]);
    assert(b[4] == le4_bytes(hi)[0]);
    assert(b[5] == le4_bytes(hi)[1]);
    assert(b[6] == le4_bytes(hi)[2]);
    assert(b[7] == le4_bytes(hi)[3]);
}

/// Reading sixteen written bytes gives the signed number back.
pub proof fn le16_round_trip(x: i128)
    ensures
        le16_bytes(x).len() == 16,
        signed128(le16(le16_bytes(x), 0)) == x,
{
    let u = if x >= 0 {
        x as int
    } else {
        x + 0x1_0000_0000_0000_0000_0000_0000_0000_0000
    };
    let lo = u % 0x1_0000_0000_0000_0000;
    let hi = u / 0x1_0000_0000_0000_0000;
    le8_round_trip(lo);
    le8_round_trip(hi);
    let b = le16_bytes(x);
    le8_shift(b, le8_bytes(lo), 0);
    le8_shift(b, le8_bytes(hi), 8);
}

/// A number is read from its own eight bytes wherever they stand.
pub proof fn le8_shift(s: Seq<u8>, part: Seq<u8>, at: int)
    requires
        0 <= at,
        part.len() == 8,
        at + 8 <= s.len(),
        s.subrange(at, at + 8) =~= part,
    ensures
        le8(s, at) == le8(part, 0),
{
    assert forall|k: int| 0 <= k < 8 implies s[at + k] == part[k] by {
        assert(s.subrange(at, at + 8)[k] == part[k]);
    }
    assert(s[at] == part[0]);
    assert(s[at + 1] == part[1]);
    assert(s[at + 2] == part[2]);
    assert(s[at + 3] == part[3]);
    assert(s[at + 4] == part[4]);
    assert(s[at + 5] == part[5]);
    assert(s[at + 6] == part[6]);
    assert(s[at + 7] == part[7]);
}

/// The same sixteen bytes are the same number wherever they stand.
pub proof fn le16_of_same_bytes(a: Seq<u8>, p: int, b: Seq<u8>, q: int)
    requires
        forall|k: int| 0 <= k < 16 ==> a[p + k] == #[trigger] b[q + k],
    ensures
        le16(a, p) == le16(b, q),
{
    assert(b[q] == b[q + 0]);
    assert(a[p] == b[q]);
    assert(a[p + 1] == b[q + 1]);
    assert(a[p + 2] == b[q + 2]);
    assert(a[p + 3] == b[q + 3]);
    assert(a[p + 4] == b[q + 4]);
    assert(a[p + 5] == b[q + 5]);
    assert(a[p + 6] == b[q + 6]);
    assert(a[p + 7] == b[q + 7]);
    assert(a[p + 8] == b[q + 8]);
    assert(a[p + 9] == b[q + 9]);
    assert(a[p + 10] == b[q + 10]);
    assert(a[p + 11] == b[q + 11]);
    assert(a[p + 12] == b[q + 12]);
    assert(a[p + 13] == b[q + 13]);
    assert(a[p + 14] == b[q + 14]);
    assert(a[p + 15] == b[q + 15]);
    assert(a[p + 8 + 4] == a[p + 12] && b[q + 8 + 4] == b[q + 12]);
}

/// Reads a four-byte slice as a little-endian number.
pub fn read_u32_le(bytes: &[u8]) -> (v: u32)
    requires
        bytes.len() == 4,
    ensures
        v == le4(bytes@, 0),
{
    u32_at(bytes, 0)
}

/// Reads an eight-byte slice as a little-endian number.
pub fn read_u64_le(bytes: &[u8]) -> (v: u64)
    requires
        bytes.len() == 8,
    ensures
        v == le8(bytes@, 0),
{
    u64_at(bytes, 0)
}

/// Reads the four bytes at `at`.
pub fn u32_at(bytes: &[u8], at: usize) -> (v: u32)
    requires
        at + 4 <= bytes.len(),
    ensures
        v == le4(bytes@, at as int),
{
    bytes[at] as u32 + bytes[at + 1] as u32 * 0x100 + bytes[at + 2] as u32 * 0x1_0000 + bytes[at + 3] as u32
        * 0x100_0000
}

/// Reads the eight bytes at `at`.
pub fn u64_at(bytes: &[u8], at: usize) -> (v: u64)
    requires
        at + 8 <= bytes.len(),
    ensures
        v == le8(bytes@, at as int),
{
    let lo: u32 = u32_at(bytes, at);
    let hi: u32 = u32_at(bytes, at + 4);
    lo as u64 + hi as u64 * 0x1_0000_0000
}

/// Reads the sixteen bytes at `at` as a signed number.
pub fn i128_at(bytes: &[u8], at: usize) -> (v: i128)
    requires
        at + 16 <= bytes.len(),
    ensures
        v == signed128(le16(bytes@, at as int)),
{
    let lo: u64 = u64_at(bytes, at);
    let hi: u64 = u64_at(bytes, at + 8);
    if hi < 0x8000_0000_0000_0000 {
        lo as i128 + hi as i128 * 0x1_0000_0000_0000_0000
    } else {
        let h: i128 = hi as i128 - 0x1_0000_0000_0000_0000;
        lo as i128 + h * 0x1_0000_0000_0000_0000
    }
}

/// Appends the four bytes of `x`.
pub fn push_u32_le(out: &mut Vec<u8>, x: u32)
    ensures
        final(out)@ == old(out)@ + le4_bytes(x as int),
{
    out.push((x % 0x100) as u8);
    out.push((x / 0x100 % 0x100) as u8);
    out.push((x / 0x1_0000 % 0x100) as u8);
    out.push((x / 0x100_0000 % 0x100) as u8);
    assert(out@ =~= old(out)@ + le4_bytes(x as int));
}

/// Appends the eight bytes of `x`.
pub fn push_u64_le(out: &mut Vec<u8>, x: u64)
    ensures
        final(out)@ == old(out)@ + le8_bytes(x as int),
{
    push_u32_le(out, (x % 0x1_0000_0000) as u32);
    push_u32_le(out, (x / 0x1_0000_0000) as u32);
    assert(out@ =~= old(out)@ + le8_bytes(x as int));
}

/// Appends the sixteen bytes of `x`.
pub fn push_i128_le(out: &mut Vec<u8>, x: i128)
    ensures
        final(out)@ == old(out)@ + le16_bytes(x),
{
    let u: u128 = if x >= 0 {
        x as u128
    } else {
        0xffff_ffff_ffff_ffff_ffff_ffff_ffff_ffff - (-(x + 1)) as u128
    };
    push_u64_le(out, (u % 0x1_0000_0000_0000_0000) as u64);
    push_u64_le(out, (u / 0x1_0000_0000_0000_0000) as u64);
    assert(out@ =~= old(out)@ + le16_bytes(x));
}

/// Appends a byte string.
pub fn push_bytes(out: &mut Vec<u8>, bytes: &[u8])
    ensures
        final(out)@ == old(out)@ + bytes@,
{
    let mut i: usize = 0;
    while i < bytes.len()
        invariant
            i <= bytes.len(),
            out@ == old(out)@ + bytes@.take(i as int),
        decreases bytes.len() - i,
    {
        out.push(bytes[i]);
        i = i + 1;
        assert(out@ =~= old(out)@ + bytes@.take(i as int));
    }
    assert(bytes@.take(i as int) =~= bytes@);
}

/// Copies `bytes[start..end]`.
pub fn copy_range(bytes: &[u8], start: usize, end: usize) -> (out: Vec<u8>)
    requires
        start <= end <= bytes.len(),
    ensures
        out@ == bytes@.subrange(start as int, end as int),
{
    let mut out: Vec<u8> = Vec::new();
    let mut i: usize = start;
    while i < end
        invariant
            start <= i <= end <= bytes.len(),
            out@ == bytes@.subrange(start as int, i as int),
        decreases end - i,
    {
        out.push(bytes[i]);
        i = i + 1;
        assert(out@ =~= bytes@.subrange(start as int, i as int));
    }
    out
}

} // verus!
