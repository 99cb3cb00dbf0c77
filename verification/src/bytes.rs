//! Little-endian integers and in-place writes over byte sequences.

use vstd::prelude::*;

verus! {

/// The two bytes of `x`, least significant first.
pub open spec fn u16_le_bytes(x: u16) -> Seq<u8> {
    seq![(x % 256) as u8, (x / 256) as u8]
}

/// The four bytes of `x`, least significant first.
pub open spec fn u32_le_bytes(x: u32) -> Seq<u8> {
    seq![
        (x % 256) as u8,
        ((x / 0x100) % 256) as u8,
        ((x / 0x1_0000) % 256) as u8,
        (x / 0x100_0000) as u8,
    ]
}

/// The eight bytes of `x`, least significant first.
pub open spec fn u64_le_bytes(x: u64) -> Seq<u8> {
    seq![
        (x % 256) as u8,
        ((x / 0x100) % 256) as u8,
        ((x / 0x1_0000) % 256) as u8,
        ((x / 0x100_0000) % 256) as u8,
        ((x / 0x1_0000_0000) % 256) as u8,
        ((x / 0x100_0000_0000) % 256) as u8,
        ((x / 0x1_0000_0000_0000) % 256) as u8,
        (x / 0x100_0000_0000_0000) as u8,
    ]
}

/// The integer whose little-endian bytes stand at `at` and `at + 1` in `s`.
pub open spec fn u16_at(s: Seq<u8>, at: int) -> u16 {
    (s[at] + 0x100 * s[at + 1]) as u16
}

/// The integer whose little-endian bytes stand at `at .. at + 4` in `s`.
pub open spec fn u32_at(s: Seq<u8>, at: int) -> u32 {
    (s[at] + 0x100 * s[at + 1] + 0x1_0000 * s[at + 2] + 0x100_0000 * s[at + 3]) as u32
}

/// Reading back what [`u16_le_bytes`] wrote gives the integer again.
pub proof fn lemma_u16_round_trip(x: u16)
    ensures
        u16_le_bytes(x).len() == 2,
        u16_at(u16_le_bytes(x), 0) == x,
{
}

/// Reading back what [`u32_le_bytes`] wrote gives the integer again.
pub proof fn lemma_u32_round_trip(x: u32)
    ensures
        u32_le_bytes(x).len() == 4,
        u32_at(u32_le_bytes(x), 0) == x,
{
}

/// Where the two bytes of `x` stand at `at` in `s`, `x` is read there.
pub proof fn lemma_u16_at(s: Seq<u8>, at: int, x: u16)
    requires
        s[at] == u16_le_bytes(x)[0],
        s[at + 1] == u16_le_bytes(x)[1],
    ensures
        u16_at(s, at) == x,
{
}

/// Where the four bytes of `x` stand at `at` in `s`, `x` is read there.
pub proof fn lemma_u32_at(s: Seq<u8>, at: int, x: u32)
    requires
        s[at] == u32_le_bytes(x)[0],
        s[at + 1] == u32_le_bytes(x)[1],
        s[at + 2] == u32_le_bytes(x)[2],
        s[at + 3] == u32_le_bytes(x)[3],
    ensures
        u32_at(s, at) == x,
{
}

/// Encodes `x` in two little-endian bytes appended to `out`.
pub fn push_u16_le(out: &mut Vec<u8>, x: u16)
    ensures
        final(out)@ == old(out)@ + u16_le_bytes(x),
{
    out.push((x % 256) as u8);
    out.push((x / 256) as u8);
}

/// Encodes `x` in four little-endian bytes appended to `out`.
pub fn push_u32_le(out: &mut Vec<u8>, x: u32)
    ensures
        final(out)@ == old(out)@ + u32_le_bytes(x),
{
    out.push((x % 256) as u8);
    out.push(((x / 0x100) % 256) as u8);
    out.push(((x / 0x1_0000) % 256) as u8);
    out.push((x / 0x100_0000) as u8);
}

/// Decodes the little-endian integer at `at .. at + 2` of `bytes`.
pub fn read_u16_le(bytes: &[u8], at: usize) -> (x: u16)
    requires
        at + 2 <= bytes@.len(),
    ensures
        x == u16_at(bytes@, at as int),
{
    let lo: u16 = bytes[at] as u16;
    let hi: u16 = bytes[at + 1] as u16;
    lo + 0x100 * hi
}

/// Decodes the little-endian integer at `at .. at + 4` of `bytes`.
pub fn read_u32_le(bytes: &[u8], at: usize) -> (x: u32)
    requires
        at + 4 <= bytes@.len(),
    ensures
        x == u32_at(bytes@, at as int),
{
    let b0: u32 = bytes[at] as u32;
    let b1: u32 = bytes[at + 1] as u32;
    let b2: u32 = bytes[at + 2] as u32;
    let b3: u32 = bytes[at + 3] as u32;
    b0 + 0x100 * b1 + 0x1_0000 * b2 + 0x100_0000 * b3
}

/// The file `file` after `data` has been written at position `pos`: the bytes
/// in `pos .. pos + data.len()` are those of `data`, a file that was shorter
/// than `pos` is filled up with zeros, and every other byte stays.
pub open spec fn overwrite(file: Seq<u8>, pos: int, data: Seq<u8>) -> Seq<u8> {
    Seq::new(
        if file.len() >= pos + data.len() {
            file.len()
        } else {
            (pos + data.len()) as nat
        },
        |i: int|
            if pos <= i < pos + data.len() {
                data[i - pos]
            } else if i < file.len() {
                file[i]
            } else {
                0u8
            },
    )
}

/// Two writes one after the other are one write of the concatenation.
pub proof fn lemma_overwrite_twice(file: Seq<u8>, pos: int, a: Seq<u8>, b: Seq<u8>)
    requires
        0 <= pos,
    ensures
        overwrite(overwrite(file, pos, a), pos + a.len(), b) == overwrite(file, pos, a + b),
{
    assert(overwrite(overwrite(file, pos, a), pos + a.len(), b) =~= overwrite(file, pos, a + b));
}

/// What was written can be read back at the same place.
pub proof fn lemma_overwrite_reads_back(file: Seq<u8>, pos: int, data: Seq<u8>)
    requires
        0 <= pos,
    ensures
        overwrite(file, pos, data).len() >= pos + data.len(),
        overwrite(file, pos, data).subrange(pos, pos + data.len()) == data,
{
    assert(overwrite(file, pos, data).subrange(pos, pos + data.len()) =~= data);
}

/// A write leaves every byte outside its range as it was.
pub proof fn lemma_overwrite_keeps_others(file: Seq<u8>, pos: int, data: Seq<u8>, i: int)
    requires
        0 <= pos,
        0 <= i < file.len(),
        i < pos || i >= pos + data.len(),
    ensures
        overwrite(file, pos, data)[i] == file[i],
{
}

} // verus!
