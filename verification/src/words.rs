//! Little-endian 32-bit words in a byte-addressed memory.

use vstd::prelude::*;

verus! {

/// The 32-bit value formed from four bytes in little-endian order.
pub open spec fn le_word(b0: u8, b1: u8, b2: u8, b3: u8) -> u32 {
    (b0 + b1 * 0x100 + b2 * 0x1_0000 + b3 * 0x100_0000) as u32
}

/// The least-significant byte of `v`.
pub open spec fn byte0(v: u32) -> u8 {
    (v % 0x100) as u8
}

/// The second byte of `v`, counting from the least significant.
pub open spec fn byte1(v: u32) -> u8 {
    ((v / 0x100) % 0x100) as u8
}

/// The third byte of `v`, counting from the least significant.
pub open spec fn byte2(v: u32) -> u8 {
    ((v / 0x1_0000) % 0x100) as u8
}

/// The most-significant byte of `v`.
pub open spec fn byte3(v: u32) -> u8 {
    ((v / 0x100_0000) % 0x100) as u8
}

/// The word stored little-endian at byte offset `a` of `m`.
pub open spec fn word_at(m: Seq<u8>, a: int) -> u32
    recommends
        0 <= a,
        a + 4 <= m.len(),
{
    le_word(m[a], m[a + 1], m[a + 2], m[a + 3])
}

/// `m` with the word `v` written little-endian at byte offset `a`.
pub open spec fn put_word(m: Seq<u8>, a: int, v: u32) -> Seq<u8>
    recommends
        0 <= a,
        a + 4 <= m.len(),
{
    m.update(a, byte0(v)).update(a + 1, byte1(v)).update(a + 2, byte2(v)).update(
        a + 3,
        byte3(v),
    )
}

/// Reassembling the four little-endian bytes of `v` gives back `v`.
pub proof fn lemma_le_word_of_bytes(v: u32)
    ensures
        le_word(byte0(v), byte1(v), byte2(v), byte3(v)) == v,
{
    assert(le_word(byte0(v), byte1(v), byte2(v), byte3(v)) == v) by (bit_vector);
}

/// Storing a 32-bit value at an in-bounds offset `a` and loading from the
/// same offset returns the original value.
pub proof fn lemma_store_then_load(m: Seq<u8>, a: int, v: u32)
    requires
        0 <= a,
        a + 4 <= m.len(),
    ensures
        word_at(put_word(m, a, v), a) == v,
        put_word(m, a, v).len() == m.len(),
{
    lemma_le_word_of_bytes(v);
}

} // verus!
