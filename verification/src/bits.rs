//! Bit-field extraction from 32-bit instruction words.
//!
//! Fields are half-open ranges `[start, end)` counted from the
//! most-significant bit (bit 0) down to the least-significant bit (bit 31).

use vstd::arithmetic::power2::lemma2_to64;
use vstd::arithmetic::power2::lemma_pow2_pos;
use vstd::arithmetic::power2::lemma_pow2_strictly_increases;
use vstd::arithmetic::power2::pow2;
use vstd::bits::lemma_u64_low_bits_mask_is_mod;
use vstd::bits::lemma_u64_pow2_no_overflow;
use vstd::bits::lemma_u64_shl_is_mul;
use vstd::bits::lemma_u64_shr_is_div;
use vstd::bits::low_bits_mask;
use vstd::prelude::*;

verus! {

/// The unsigned value of the bits of `w` in the half-open range
/// `[start, end)`, counted from the most-significant bit, right-justified:
/// drop the `32 - end` low-order bits, then keep the lowest `end - start`
/// bits of what remains.
pub open spec fn field_spec(w: u32, start: int, end: int) -> nat
    recommends
        0 <= start <= end <= 32,
{
    (w as nat / pow2((32 - end) as nat)) % pow2((end - start) as nat)
}

/// A field of width `end - start` is below `2^(end - start)`, and the full
/// range `[0, 32)` gives back the word itself.
pub proof fn lemma_field_spec_range(w: u32, start: int, end: int)
    requires
        0 <= start <= end <= 32,
    ensures
        field_spec(w, start, end) < pow2((end - start) as nat),
        start == 0 && end == 32 ==> field_spec(w, start, end) == w,
{
    lemma_pow2_pos((end - start) as nat);
    lemma_pow2_pos((32 - end) as nat);
    if start == 0 && end == 32 {
        lemma2_to64();
        assert(w as nat / pow2(0) == w as nat);
        assert(w as nat % pow2(32) == w as nat);
    }
}

/// The shift-and-mask computation on 64-bit words equals `field_spec`.
/// `sh` stands for `32 - end` and `width` for `end - start`.
pub proof fn lemma_shift_mask_is_field(v: u64, sh: u64, width: u64)
    requires
        v <= u32::MAX,
        sh <= 32,
        width <= 32,
    ensures
        ((v >> sh) & (((1u64 << width) - 1) as u64)) == (v as nat / pow2(sh as nat)) % pow2(
            width as nat,
        ),
        ((v >> sh) & (((1u64 << width) - 1) as u64)) < pow2(width as nat),
        pow2(width as nat) <= 0x1_0000_0000,
        1u64 << width >= 1,
{
    lemma_u64_shr_is_div(v, sh);
    lemma_u64_pow2_no_overflow(width as nat);
    lemma_u64_shl_is_mul(1u64, width);
    assert(((1u64 << width) - 1) as u64 == low_bits_mask(width as nat));
    lemma_u64_low_bits_mask_is_mod(v >> sh, width as nat);
    lemma_pow2_pos(width as nat);
    lemma2_to64();
    if width < 32 {
        lemma_pow2_strictly_increases(width as nat, 32);
    }
}

} // verus!
