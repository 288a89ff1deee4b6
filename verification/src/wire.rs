//! Little-endian integers inside byte sequences.
use vstd::prelude::*;

verus! {

/// The unsigned 16-bit integer stored at `at`, least significant byte first.
pub open spec fn le_u16(s: Seq<u8>, at: int) -> int {
    s[at] + 0x100 * s[at + 1]
}

/// The unsigned 32-bit integer stored at `at`, least significant byte first.
pub open spec fn le_u32(s: Seq<u8>, at: int) -> int {
    s[at] + 0x100 * s[at + 1] + 0x1_0000 * s[at + 2] + 0x100_0000 * s[at + 3]
}

/// The unsigned 64-bit integer stored at `at`, least significant byte first.
pub open spec fn le_u64(s: Seq<u8>, at: int) -> int {
    le_u32(s, at) + 0x1_0000_0000 * le_u32(s, at + 4)
}

/// An unsigned pattern below `modulus` read as a two's complement number.
pub open spec fn twos_complement(pattern: int, modulus: int) -> int {
    if 2 * pattern < modulus {
        pattern
    } else {
        pattern - modulus
    }
}

/// The signed 16-bit integer stored at `at`.
pub open spec fn le_i16(s: Seq<u8>, at: int) -> int {
    twos_complement(le_u16(s, at), 0x1_0000)
}

/// The signed 32-bit integer stored at `at`.
pub open spec fn le_i32(s: Seq<u8>, at: int) -> int {
    twos_complement(le_u32(s, at), 0x1_0000_0000)
}

/// The signed 64-bit integer stored at `at`.
pub open spec fn le_i64(s: Seq<u8>, at: int) -> int {
    twos_complement(le_u64(s, at), 0x1_0000_0000_0000_0000)
}

/// Reads the unsigned 16-bit integer stored at `at`.
pub fn read_u16(bytes: &[u8], at: usize) -> (value: u16)
    requires
        at + 2 <= bytes.len(),
    ensures
        value == le_u16(bytes@, at as int),
{
    let lo: u16 = bytes[at] as u16;
    let hi: u16 = bytes[at + 1] as u16;
    lo + 0x100 * hi
}

/// Reads the unsigned 32-bit integer stored at `at`.
pub fn read_u32(bytes: &[u8], at: usize) -> (value: u32)
    requires
        at + 4 <= bytes.len(),
    ensures
        value == le_u32(bytes@, at as int),
{
    let b0: u32 = bytes[at] as u32;
    let b1: u32 = bytes[at + 1] as u32;
    let b2: u32 = bytes[at + 2] as u32;
    let b3: u32 = bytes[at + 3] as u32;
    b0 + 0x100 * b1 + 0x1_0000 * b2 + 0x100_0000 * b3
}

/// Reads the unsigned 64-bit integer stored at `at`.
pub fn read_u64(bytes: &[u8], at: usize) -> (value: u64)
    requires
        at + 8 <= bytes.len(),
    ensures
        value == le_u64(bytes@, at as int),
{
    let lo: u64 = read_u32(bytes, at) as u64;
    let hi: u64 = read_u32(bytes, at + 4) as u64;
    lo + 0x1_0000_0000 * hi
}

/// Reads the signed 16-bit integer stored at `at`.
pub fn read_i16(bytes: &[u8], at: usize) -> (value: i16)
    requires
        at + 2 <= bytes.len(),
    ensures
        value == le_i16(bytes@, at as int),
{
    let pattern: u16 = read_u16(bytes, at);
    if pattern < 0x8000 {
        pattern as i16
    } else {
        let low: i16 = (pattern - 0x8000) as i16;
        low + i16::MIN
    }
}

/// Reads the signed 32-bit integer stored at `at`.
pub fn read_i32(bytes: &[u8], at: usize) -> (value: i32)
    requires
        at + 4 <= bytes.len(),
    ensures
        value == le_i32(bytes@, at as int),
{
    let pattern: u32 = read_u32(bytes, at);
    if pattern < 0x8000_0000 {
        pattern as i32
    } else {
        let low: i32 = (pattern - 0x8000_0000) as i32;
        low + i32::MIN
    }
}

/// Reads the signed 64-bit integer stored at `at`.
pub fn read_i64(bytes: &[u8], at: usize) -> (value: i64)
    requires
        at + 8 <= bytes.len(),
    ensures
        value == le_i64(bytes@, at as int),
{
    let pattern: u64 = read_u64(bytes, at);
    if pattern < 0x8000_0000_0000_0000 {
        pattern as i64
    } else {
        let low: i64 = (pattern - 0x8000_0000_0000_0000) as i64;
        low + i64::MIN
    }
}

/// That `after` is `before` with `count` bytes appended.
pub open spec fn extends_by(after: Seq<u8>, before: Seq<u8>, count: int) -> bool {
    &&& after.len() == before.len() + count
    &&& forall|k: int| 0 <= k < before.len() ==> #[trigger] after[k] == before[k]
}

/// Appends an unsigned 16-bit integer, least significant byte first.
pub fn push_u16(out: &mut Vec<u8>, value: u16)
    ensures
        extends_by(final(out)@, old(out)@, 2),
        le_u16(final(out)@, old(out)@.len() as int) == value,
{
    out.push((value % 0x100) as u8);
    out.push((value / 0x100) as u8);
}

/// Appends an unsigned 32-bit integer, least significant byte first.
pub fn push_u32(out: &mut Vec<u8>, value: u32)
    ensures
        extends_by(final(out)@, old(out)@, 4),
        le_u32(final(out)@, old(out)@.len() as int) == value,
{
    out.push((value % 0x100) as u8);
    out.push((value / 0x100 % 0x100) as u8);
    out.push((value / 0x1_0000 % 0x100) as u8);
    out.push((value / 0x100_0000) as u8);
}

/// Appends a signed 16-bit integer in two's complement, least significant
/// byte first.
pub fn push_i16(out: &mut Vec<u8>, value: i16)
    ensures
        extends_by(final(out)@, old(out)@, 2),
        le_i16(final(out)@, old(out)@.len() as int) == value,
{
    let pattern: u16 = if value >= 0 {
        value as u16
    } else {
        (value - i16::MIN) as u16 + 0x8000
    };
    push_u16(out, pattern);
}

/// Appends a signed 32-bit integer in two's complement, least significant
/// byte first.
pub fn push_i32(out: &mut Vec<u8>, value: i32)
    ensures
        extends_by(final(out)@, old(out)@, 4),
        le_i32(final(out)@, old(out)@.len() as int) == value,
{
    let pattern: u32 = if value >= 0 {
        value as u32
    } else {
        (value - i32::MIN) as u32 + 0x8000_0000
    };
    push_u32(out, pattern);
}

/// A multiple of 256 strictly between -256 and 256 is zero.
proof fn small_multiple_is_zero(difference: int, factor: int)
    requires
        difference == 0x100 * factor,
        -0x100 < difference < 0x100,
    ensures
        difference == 0,
        factor == 0,
{
}

/// Two byte pairs that read as the same 16-bit integer are the same bytes.
pub proof fn le_u16_is_injective(s: Seq<u8>, at: int, t: Seq<u8>, at_t: int)
    requires
        le_u16(s, at) == le_u16(t, at_t),
    ensures
        s[at] == t[at_t],
        s[at + 1] == t[at_t + 1],
{
    let (a0, a1) = (s[at] as int, s[at + 1] as int);
    let (b0, b1) = (t[at_t] as int, t[at_t + 1] as int);
    small_multiple_is_zero(a0 - b0, b1 - a1);
}

/// Four bytes that read as the same 32-bit integer are the same bytes.
pub proof fn le_u32_is_injective(s: Seq<u8>, at: int, t: Seq<u8>, at_t: int)
    requires
        le_u32(s, at) == le_u32(t, at_t),
    ensures
        s[at] == t[at_t],
        s[at + 1] == t[at_t + 1],
        s[at + 2] == t[at_t + 2],
        s[at + 3] == t[at_t + 3],
{
    let (a0, a1, a2, a3) = (s[at] as int, s[at + 1] as int, s[at + 2] as int, s[at + 3] as int);
    let (b0, b1, b2, b3) = (
        t[at_t] as int,
        t[at_t + 1] as int,
        t[at_t + 2] as int,
        t[at_t + 3] as int,
    );
    small_multiple_is_zero(a0 - b0, (b1 - a1) + 0x100 * (b2 - a2) + 0x1_0000 * (b3 - a3));
    small_multiple_is_zero(a1 - b1, (b2 - a2) + 0x100 * (b3 - a3));
    small_multiple_is_zero(a2 - b2, b3 - a3);
}

} // verus!
