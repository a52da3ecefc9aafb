//! Byte-level building blocks of the scene format: fixed-width integers in a
//! declared byte order, and the effect of writing a record into a buffer.

use vstd::prelude::*;

verus! {

/// The two bytes of `v`, least significant first.
pub open spec fn le16(v: u16) -> Seq<u8> {
    seq![(v % 0x100) as u8, (v / 0x100) as u8]
}

/// The four bytes of `v`, least significant first.
pub open spec fn le32(v: u32) -> Seq<u8> {
    seq![
        (v % 0x100) as u8,
        (v / 0x100 % 0x100) as u8,
        (v / 0x1_0000 % 0x100) as u8,
        (v / 0x100_0000) as u8,
    ]
}

/// The four bytes of `v`, most significant first.
pub open spec fn be32(v: u32) -> Seq<u8> {
    seq![
        (v / 0x100_0000) as u8,
        (v / 0x1_0000 % 0x100) as u8,
        (v / 0x100 % 0x100) as u8,
        (v % 0x100) as u8,
    ]
}

/// The little-endian 16-bit value stored at offset `at`.
pub open spec fn le16_at(bytes: Seq<u8>, at: int) -> u16
    recommends
        0 <= at,
        at + 2 <= bytes.len(),
{
    (bytes[at] + 0x100 * bytes[at + 1]) as u16
}

/// The little-endian 32-bit value stored at offset `at`.
pub open spec fn le32_at(bytes: Seq<u8>, at: int) -> u32
    recommends
        0 <= at,
        at + 4 <= bytes.len(),
{
    (bytes[at] + 0x100 * bytes[at + 1] + 0x1_0000 * bytes[at + 2] + 0x100_0000 * bytes[at + 3]) as u32
}

/// The big-endian 32-bit value stored at offset `at`.
pub open spec fn be32_at(bytes: Seq<u8>, at: int) -> u32
    recommends
        0 <= at,
        at + 4 <= bytes.len(),
{
    (0x100_0000 * bytes[at] + 0x1_0000 * bytes[at + 1] + 0x100 * bytes[at + 2] + bytes[at + 3]) as u32
}

/// `bytes` with `rec` written over the positions `at .. at + rec.len()`.
pub open spec fn splice(bytes: Seq<u8>, at: int, rec: Seq<u8>) -> Seq<u8> {
    Seq::new(
        bytes.len(),
        |i: int|
            if at <= i < at + rec.len() {
                rec[i - at]
            } else {
                bytes[i]
            },
    )
}

/// `rec` is what `bytes` holds at offset `at`.
pub open spec fn holds(bytes: Seq<u8>, at: int, rec: Seq<u8>) -> bool {
    &&& 0 <= at
    &&& at + rec.len() <= bytes.len()
    &&& forall|k: int| 0 <= k < rec.len() ==> #[trigger] bytes[at + k] == rec[k]
}

/// A record that was written can be read back where it was written, and a
/// record that the write did not touch is still there.
pub proof fn lemma_splice_holds(bytes: Seq<u8>, at: int, rec: Seq<u8>)
    requires
        0 <= at,
        at + rec.len() <= bytes.len(),
    ensures
        splice(bytes, at, rec).len() == bytes.len(),
        holds(splice(bytes, at, rec), at, rec),
        forall|other: int, prev: Seq<u8>|
            holds(bytes, other, prev) && (other + prev.len() <= at || at + rec.len() <= other)
                ==> #[trigger] holds(splice(bytes, at, rec), other, prev),
{
    let after = splice(bytes, at, rec);
    assert forall|other: int, prev: Seq<u8>|
        holds(bytes, other, prev) && (other + prev.len() <= at || at + rec.len()
            <= other) implies #[trigger] holds(after, other, prev) by {
        assert forall|k: int| 0 <= k < prev.len() implies #[trigger] after[other + k] == prev[k] by {
            assert(bytes[other + k] == prev[k]);
        }
    }
}

/// Reading a 16-bit value where its bytes stand gives the value.
pub proof fn lemma_le16_round_trip(bytes: Seq<u8>, at: int, v: u16)
    requires
        holds(bytes, at, le16(v)),
    ensures
        le16_at(bytes, at) == v,
{
    assert(bytes[at + 0] == le16(v)[0]);
    assert(bytes[at + 1] == le16(v)[1]);
}

/// Reading a little-endian 32-bit value where its bytes stand gives the value.
pub proof fn lemma_le32_round_trip(bytes: Seq<u8>, at: int, v: u32)
    requires
        holds(bytes, at, le32(v)),
    ensures
        le32_at(bytes, at) == v,
{
    assert(bytes[at + 0] == le32(v)[0]);
    assert(bytes[at + 1] == le32(v)[1]);
    assert(bytes[at + 2] == le32(v)[2]);
    assert(bytes[at + 3] == le32(v)[3]);
}

/// Reading a big-endian 32-bit value where its bytes stand gives the value.
pub proof fn lemma_be32_round_trip(bytes: Seq<u8>, at: int, v: u32)
    requires
        holds(bytes, at, be32(v)),
    ensures
        be32_at(bytes, at) == v,
{
    assert(bytes[at + 0] == be32(v)[0]);
    assert(bytes[at + 1] == be32(v)[1]);
    assert(bytes[at + 2] == be32(v)[2]);
    assert(bytes[at + 3] == be32(v)[3]);
}

/// Appends `v` in little-endian order.
pub fn push_le16(out: &mut Vec<u8>, v: u16)
    ensures
        final(out)@ == old(out)@ + le16(v),
{
    out.push((v % 0x100) as u8);
    out.push((v / 0x100) as u8);
    assert(out@ =~= old(out)@ + le16(v));
}

/// Appends `v` in little-endian order.
pub fn push_le32(out: &mut Vec<u8>, v: u32)
    ensures
        final(out)@ == old(out)@ + le32(v),
{
    out.push((v % 0x100) as u8);
    out.push((v / 0x100 % 0x100) as u8);
    out.push((v / 0x1_0000 % 0x100) as u8);
    out.push((v / 0x100_0000) as u8);
    assert(out@ =~= old(out)@ + le32(v));
}

/// Appends `v` in big-endian order.
pub fn push_be32(out: &mut Vec<u8>, v: u32)
    ensures
        final(out)@ == old(out)@ + be32(v),
{
    out.push((v / 0x100_0000) as u8);
    out.push((v / 0x1_0000 % 0x100) as u8);
    out.push((v / 0x100 % 0x100) as u8);
    out.push((v % 0x100) as u8);
    assert(out@ =~= old(out)@ + be32(v));
}

/// Reads the little-endian 16-bit value at offset `at`.
pub fn read_le16(buf: &[u8], at: usize) -> (v: u16)
    requires
        at + 2 <= buf@.len(),
    ensures
        v == le16_at(buf@, at as int),
{
    let b0: u16 = buf[at] as u16;
    let b1: u16 = buf[at + 1] as u16;
    b0 + 0x100 * b1
}

/// Reads the little-endian 32-bit value at offset `at`.
pub fn read_le32(buf: &[u8], at: usize) -> (v: u32)
    requires
        at + 4 <= buf@.len(),
    ensures
        v == le32_at(buf@, at as int),
{
    let b0: u32 = buf[at] as u32;
    let b1: u32 = buf[at + 1] as u32;
    let b2: u32 = buf[at + 2] as u32;
    let b3: u32 = buf[at + 3] as u32;
    b0 + 0x100 * b1 + 0x1_0000 * b2 + 0x100_0000 * b3
}

/// Reads the big-endian 32-bit value at offset `at`.
pub fn read_be32(buf: &[u8], at: usize) -> (v: u32)
    requires
        at + 4 <= buf@.len(),
    ensures
        v == be32_at(buf@, at as int),
{
    let b0: u32 = buf[at] as u32;
    let b1: u32 = buf[at + 1] as u32;
    let b2: u32 = buf[at + 2] as u32;
    let b3: u32 = buf[at + 3] as u32;
    0x100_0000 * b0 + 0x1_0000 * b1 + 0x100 * b2 + b3
}

} // verus!
