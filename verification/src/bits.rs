//! Facts about single bits of a `u32` word.
use vstd::prelude::*;

verus! {

/// The bit at position `j` (least significant first) of the word `w`.
pub open spec fn bit_of(w: u32, j: u32) -> bool {
    ((w >> j) & 1u32) == 1u32
}

/// Testing a bit with a one-bit mask is the same as reading the bit.
pub proof fn lemma_mask_test(w: u32, o: u32)
    requires
        o < 32,
    ensures
        ((w & (1u32 << o)) == (1u32 << o)) == bit_of(w, o),
        ((w & (1u32 << o)) != 0u32) == bit_of(w, o),
{
    assert(((w & (1u32 << o)) == (1u32 << o)) == (((w >> o) & 1u32) == 1u32)) by (bit_vector)
        requires
            o < 32,
    ;
    assert(((w & (1u32 << o)) != 0u32) == (((w >> o) & 1u32) == 1u32)) by (bit_vector)
        requires
            o < 32,
    ;
}

/// Setting bit `o` changes no other bit.
pub proof fn lemma_set_bit(w: u32, o: u32, j: u32)
    requires
        o < 32,
        j < 32,
    ensures
        bit_of(w | (1u32 << o), j) == (j == o || bit_of(w, j)),
{
    assert((((w | (1u32 << o)) >> j) & 1u32 == 1u32) == (j == o || ((w >> j) & 1u32) == 1u32))
        by (bit_vector)
        requires
            o < 32,
            j < 32,
    ;
}

/// Clearing bit `o` changes no other bit.
pub proof fn lemma_clear_bit(w: u32, o: u32, j: u32)
    requires
        o < 32,
        j < 32,
    ensures
        bit_of(w & !(1u32 << o), j) == (j != o && bit_of(w, j)),
{
    assert((((w & !(1u32 << o)) >> j) & 1u32 == 1u32) == (j != o && ((w >> j) & 1u32) == 1u32))
        by (bit_vector)
        requires
            o < 32,
            j < 32,
    ;
}

/// No bit of `0` is set.
pub proof fn lemma_zero_bits(j: u32)
    ensures
        !bit_of(0u32, j),
{
    assert(((0u32 >> j) & 1u32) != 1u32) by (bit_vector);
}

/// A word with no bit set below 32 is zero.
pub proof fn lemma_no_bits_is_zero(w: u32)
    requires
        forall|j: u32| j < 32 ==> !#[trigger] bit_of(w, j),
    ensures
        w == 0,
{
    if w != 0 {
        let j = w.trailing_zeros();
        vstd::std_specs::bits::axiom_u32_trailing_zeros(w);
        assert(bit_of(w, j));
    }
}

/// Every bit of `u32::MAX` is set.
pub proof fn lemma_max_bits(j: u32)
    requires
        j < 32,
    ensures
        bit_of(0xffff_ffffu32, j),
{
    assert(((0xffff_ffffu32 >> j) & 1u32) == 1u32) by (bit_vector)
        requires
            j < 32,
    ;
}

/// Masking away the bits below `s`.
pub proof fn lemma_mask_low(w: u32, s: u32, j: u32)
    requires
        s < 32,
        j < 32,
    ensures
        bit_of(w & (((1u32 << s) - 1) as u32 ^ 0xffff_ffffu32), j) == (j >= s && bit_of(w, j)),
{
    assert(((((w & (((1u32 << s) - 1) as u32 ^ 0xffff_ffffu32)) >> j) & 1u32) == 1u32) == (j >= s
        && ((w >> j) & 1u32) == 1u32)) by (bit_vector)
        requires
            s < 32,
            j < 32,
    ;
}

/// Keeping only the bits below `e`.
pub proof fn lemma_mask_high(w: u32, e: u32, j: u32)
    requires
        0 < e < 32,
        j < 32,
    ensures
        bit_of(w & ((1u32 << e) - 1) as u32, j) == (j < e && bit_of(w, j)),
{
    assert(((((w & ((1u32 << e) - 1) as u32) >> j) & 1u32) == 1u32) == (j < e && ((w >> j) & 1u32)
        == 1u32)) by (bit_vector)
        requires
            0 < e < 32,
            j < 32,
    ;
}

/// `1 << e` is at least one, so subtracting one from it cannot underflow.
pub proof fn lemma_shl_pos(e: u32)
    requires
        e < 32,
    ensures
        (1u32 << e) >= 1,
{
    assert((1u32 << e) >= 1) by (bit_vector)
        requires
            e < 32,
    ;
}

/// The lowest set bit of a nonzero word is at `trailing_zeros`, and removing it
/// with `w ^ (w & -w)` keeps all the other bits.
pub proof fn lemma_pop_lowest(w: u32, t: u32)
    requires
        w != 0,
        t == w & 0u32.wrapping_sub(w),
    ensures
        w.trailing_zeros() < 32,
        bit_of(w, w.trailing_zeros()),
        forall|j: u32| j < w.trailing_zeros() ==> !#[trigger] bit_of(w, j),
        forall|j: u32|
            j < 32 ==> #[trigger] bit_of(w ^ t, j) == (j != w.trailing_zeros() && bit_of(w, j)),
{
    let tz = w.trailing_zeros();
    vstd::std_specs::bits::axiom_u32_trailing_zeros(w);
    let n = 0u32.wrapping_sub(w);
    assert(n + w == 0x1_0000_0000int);
    let sh = (32 - tz) as u32;
    assert forall|j: u32| j < 32 implies #[trigger] bit_of(w ^ t, j) == (j != tz && bit_of(w, j)) by {
        assert(((((w ^ (w & n)) >> j) & 1u32) == 1u32) == (j != tz && ((w >> j) & 1u32) == 1u32))
            by (bit_vector)
            requires
                w != 0,
                tz < 32,
                j < 32,
                n + w == 0x1_0000_0000int,
                (w >> tz) & 1u32 == 1u32,
                sh + tz == 32,
                w << sh == 0,
        ;
    }
    assert forall|j: u32| j < tz implies !#[trigger] bit_of(w, j) by {}
}

/// Bits of a word assembled from two neighbouring words, shifted by `off`.
pub proof fn lemma_straddle(a: u32, b: u32, off: u32, k: u32)
    requires
        0 < off < 32,
        k < 32,
    ensures
        bit_of((a >> off) | (b << ((32 - off) as u32)), k) == if k < 32 - off {
            bit_of(a, (k + off) as u32)
        } else {
            bit_of(b, (k + off - 32) as u32)
        },
{
    let sh = (32 - off) as u32;
    if k < 32 - off {
        let kk = (k + off) as u32;
        assert(((((a >> off) | (b << sh)) >> k) & 1u32 == 1u32) == (((a >> kk) & 1u32) == 1u32))
            by (bit_vector)
            requires
                0 < off < 32,
                k < 32,
                sh + off == 32,
                k < sh,
                kk == k + off,
        ;
    } else {
        let kk = (k + off - 32) as u32;
        assert(((((a >> off) | (b << sh)) >> k) & 1u32 == 1u32) == (((b >> kk) & 1u32) == 1u32))
            by (bit_vector)
            requires
                0 < off < 32,
                k < 32,
                sh + off == 32,
                k >= sh,
                kk + 32 == k + off,
        ;
    }
}

} // verus!
