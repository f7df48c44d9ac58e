//! Bit-tweedling data structures: bitsets, bit matrices, jagged arrays and
//! small-integer maps, with their contracts proved by Verus.
use vstd::prelude::*;

pub mod binding;
pub mod bits;
pub mod bitset;
pub mod bitmatrix;
pub mod bitmultimap;
pub mod enum_bitmatrix;
pub mod index_map;
pub mod index_multimap;
pub mod jagged_bitset;
pub mod jagged_vec;
pub mod jagged_const_row_array;
pub mod modifiers;
pub mod post_process;
pub mod reflect_path;
pub mod resolve;
pub mod sorted;
pub mod tree;

verus! {

/// Integer division rounded up.
pub fn div_ceil(lhf: usize, rhs: usize) -> (r: usize)
    requires
        rhs > 0,
        lhf + rhs <= usize::MAX,
    ensures
        r == (lhf + rhs - 1) / (rhs as int),
{
    (lhf + rhs - 1) / rhs
}

/// The number of bits needed to write `x`: the smallest `n` with `x < 2ⁿ`.
pub open spec fn is_bit_width(x: int, n: nat) -> bool {
    &&& x < vstd::arithmetic::power2::pow2(n)
    &&& n > 0 ==> vstd::arithmetic::power2::pow2((n - 1) as nat) <= x
}

/// The position of the most significant enabled bit, counting from 1.
///
/// `0` when no bit is enabled.
pub trait MostSignificantBit {
    spec fn spec_value(&self) -> int;

    fn most_significant_bit(&self) -> (r: u32)
        ensures
            is_bit_width(self.spec_value(), r as nat),
    ;
}

proof fn lemma_u64_bit_width(x: u64, lz: u32)
    requires
        lz <= 64,
        x >> ((64 - lz) as u64) == 0 || lz == 0,
        lz < 64 ==> (x >> ((63 - lz) as u64)) & 1u64 != 0u64,
    ensures
        is_bit_width(x as int, (64 - lz) as nat),
{
    let n = (64 - lz) as u64;
    if n < 64 {
        assert(x < (1u64 << n)) by (bit_vector)
            requires
                n < 64,
                x >> n == 0,
        ;
        vstd::bits::lemma_u64_pow2_no_overflow(n as nat);
        vstd::bits::lemma_u64_shl_is_mul(1, n);
    } else {
        vstd::arithmetic::power2::lemma2_to64();
        vstd::arithmetic::power2::lemma2_to64_rest();
    }
    if n > 0 {
        let m = (n - 1) as u64;
        assert(x >= (1u64 << m)) by (bit_vector)
            requires
                m < 64,
                (x >> m) & 1u64 != 0u64,
        ;
        vstd::bits::lemma_u64_pow2_no_overflow(m as nat);
        vstd::bits::lemma_u64_shl_is_mul(1, m);
    }
}

impl MostSignificantBit for u32 {
    open spec fn spec_value(&self) -> int {
        *self as int
    }

    fn most_significant_bit(&self) -> (r: u32) {
        let lz = self.leading_zeros();
        proof {
            vstd::std_specs::bits::axiom_u32_leading_zeros(*self);
            let x = *self as u64;
            let l = lz as u64;
            let w = *self;
            assert(x >> ((32 - l) as u64) == 0) by (bit_vector)
                requires
                    x == w as u64,
                    l <= 32,
                    w >> ((32 - l) as u32) == 0,
            ;
            assert(l < 32 ==> (x >> ((31 - l) as u64)) & 1u64 != 0u64) by (bit_vector)
                requires
                    x == w as u64,
                    l <= 32,
                    l < 32 ==> (w >> ((31 - l) as u32)) & 1u32 != 0u32,
            ;
            lemma_u64_bit_width(x, (lz + 32) as u32);
        }
        32 - lz
    }
}

impl MostSignificantBit for usize {
    open spec fn spec_value(&self) -> int {
        *self as int
    }

    fn most_significant_bit(&self) -> (r: u32) {
        let x = *self as u64;
        let lz = x.leading_zeros();
        proof {
            vstd::std_specs::bits::axiom_u64_leading_zeros(x);
            lemma_u64_bit_width(x, lz);
        }
        64 - lz
    }
}

/// `c` is a Unicode scalar value: a `char` can hold it.
pub open spec fn is_scalar(c: u32) -> bool {
    c <= 0x10FFFF && !(0xD800 <= c <= 0xDFFF)
}

/// Calls `char::from_u32`, which the standard library documents as returning
/// the `char` of code `c` when `c` is a Unicode scalar value, `None` otherwise.
#[verifier::external_body]
pub(crate) fn char_from_u32(c: u32) -> (r: Option<char>)
    ensures
        r is Some <==> is_scalar(c),
        r matches Some(ch) ==> ch as u32 == c,
{
    char::from_u32(c)
}

/// Get an `usize` from `Self`.
pub trait Index {
    /// The index this value stands for.
    spec fn spec_index(&self) -> nat;

    fn get(&self) -> (r: usize)
        ensures
            r == self.spec_index(),
    ;
}

impl Index for usize {
    open spec fn spec_index(&self) -> nat {
        *self as nat
    }

    fn get(&self) -> (r: usize) {
        *self
    }
}

impl Index for u32 {
    open spec fn spec_index(&self) -> nat {
        *self as nat
    }

    fn get(&self) -> (r: usize) {
        *self as usize
    }
}

impl Index for u64 {
    open spec fn spec_index(&self) -> nat {
        (*self as usize) as nat
    }

    fn get(&self) -> (r: usize) {
        *self as usize
    }
}

} // verus!
