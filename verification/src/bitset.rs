//! A slice of `u32` accessed on the bit level.
use vstd::prelude::*;

use std::ops::Range;

use crate::bits::{
    bit_of, lemma_clear_bit, lemma_mask_high, lemma_mask_low, lemma_mask_test, lemma_pop_lowest,
    lemma_set_bit, lemma_shl_pos, lemma_straddle, lemma_zero_bits,
};

verus! {

/// The bits of a sequence of words, the bit `i` being the bit `i % 32` of
/// the word `i / 32`.
pub open spec fn bits_of(words: Seq<u32>) -> Seq<bool> {
    Seq::new(words.len() * 32, |i: int| bit_of(words[i / 32], (i % 32) as u32))
}

/// The positions in `lo..hi` of the bits set in `bits`, in ascending order.
pub open spec fn ones_seq(bits: Seq<bool>, lo: int, hi: int) -> Seq<int>
    decreases hi - lo,
{
    if lo >= hi {
        Seq::empty()
    } else if bits[lo] {
        seq![lo] + ones_seq(bits, lo + 1, hi)
    } else {
        ones_seq(bits, lo + 1, hi)
    }
}

/// A sequence of integers in strictly ascending order.
pub open spec fn strictly_ascending(s: Seq<int>) -> bool {
    forall|a: int, b: int| 0 <= a < b < s.len() ==> s[a] < s[b]
}

/// The positions [`Bitset::ones_in_range`] yields are, in strictly
/// ascending order, exactly the enabled bits of the range.
pub proof fn law_ones_in_range(bits: Seq<bool>, lo: int, hi: int)
    requires
        0 <= lo,
        hi <= bits.len(),
    ensures
        strictly_ascending(ones_seq(bits, lo, hi)),
        forall|i: int| #[trigger] ones_seq(bits, lo, hi).contains(i) <==> (lo <= i < hi && bits[i]),
{
    lemma_ones_seq(bits, lo, hi);
}

/// `ones_seq` is strictly ascending and holds exactly the set positions of its range.
pub proof fn lemma_ones_seq(bits: Seq<bool>, lo: int, hi: int)
    requires
        0 <= lo,
        hi <= bits.len(),
    ensures
        strictly_ascending(ones_seq(bits, lo, hi)),
        forall|i: int| ones_seq(bits, lo, hi).contains(i) <==> (lo <= i < hi && bits[i]),
        forall|k: int|
            0 <= k < ones_seq(bits, lo, hi).len() ==> lo <= #[trigger] ones_seq(bits, lo, hi)[k]
                < hi,
    decreases hi - lo,
{
    if lo < hi {
        lemma_ones_seq(bits, lo + 1, hi);
        let rest = ones_seq(bits, lo + 1, hi);
        if bits[lo] {
            let s = seq![lo] + rest;
            assert forall|i: int| s.contains(i) <==> (lo <= i < hi && bits[i]) by {
                if i == lo {
                    assert(s[0] == lo);
                }
                if s.contains(i) && i != lo {
                    let k = choose|k: int| 0 <= k < s.len() && s[k] == i;
                    assert(rest[k - 1] == i);
                }
                if lo < i < hi && bits[i] {
                    let k = choose|k: int| 0 <= k < rest.len() && rest[k] == i;
                    assert(s[k + 1] == i);
                }
            }
            assert forall|a: int, b: int| 0 <= a < b < s.len() implies s[a] < s[b] by {
                if a > 0 {
                    assert(s[a] == rest[a - 1]);
                }
                assert(s[b] == rest[b - 1]);
            }
        }
    }
}

/// Any strictly ascending sequence holding exactly the set positions of
/// `lo..hi` is `ones_seq(bits, lo, hi)`.
pub proof fn lemma_ones_seq_unique(bits: Seq<bool>, lo: int, hi: int, s: Seq<int>)
    requires
        0 <= lo,
        hi <= bits.len(),
        strictly_ascending(s),
        forall|i: int| s.contains(i) <==> (lo <= i < hi && bits[i]),
    ensures
        s == ones_seq(bits, lo, hi),
{
    lemma_ones_seq(bits, lo, hi);
    lemma_ascending_unique(s, ones_seq(bits, lo, hi));
}

/// Two strictly ascending sequences with the same elements are equal.
pub proof fn lemma_ascending_unique(s: Seq<int>, t: Seq<int>)
    requires
        strictly_ascending(s),
        strictly_ascending(t),
        forall|i: int| s.contains(i) <==> t.contains(i),
    ensures
        s == t,
    decreases s.len() + t.len(),
{
    if s.len() == 0 {
        if t.len() > 0 {
            assert(t.contains(t[0]));
        }
    } else if t.len() == 0 {
        assert(s.contains(s[0]));
    } else {
        assert(s.contains(s[0]));
        assert(t.contains(t[0]));
        let ks = choose|k: int| 0 <= k < s.len() && s[k] == t[0];
        let kt = choose|k: int| 0 <= k < t.len() && t[k] == s[0];
        assert(s[0] == t[0]) by {
            if ks > 0 {
                assert(s[0] < s[ks]);
            }
            if kt > 0 {
                assert(t[0] < t[kt]);
            }
        }
        let s1 = s.drop_first();
        let t1 = t.drop_first();
        assert forall|i: int| s1.contains(i) <==> t1.contains(i) by {
            if s1.contains(i) {
                let k = choose|k: int| 0 <= k < s1.len() && s1[k] == i;
                assert(s[k + 1] == i);
                assert(s[0] < s[k + 1]);
                assert(t.contains(i));
                let k2 = choose|k2: int| 0 <= k2 < t.len() && t[k2] == i;
                assert(k2 != 0);
                assert(t1[k2 - 1] == i);
            }
            if t1.contains(i) {
                let k = choose|k: int| 0 <= k < t1.len() && t1[k] == i;
                assert(t[k + 1] == i);
                assert(t[0] < t[k + 1]);
                assert(s.contains(i));
                let k2 = choose|k2: int| 0 <= k2 < s.len() && s[k2] == i;
                assert(k2 != 0);
                assert(s1[k2 - 1] == i);
            }
        }
        lemma_ascending_unique(s1, t1);
        assert(s =~= seq![s[0]] + s1);
        assert(t =~= seq![t[0]] + t1);
    }
}

/// The set positions of a window of `bits` starting at `start` are those of
/// `bits` within the window, shifted by `start`.
pub proof fn lemma_ones_seq_shift(bits: Seq<bool>, window: Seq<bool>, start: int)
    requires
        0 <= start,
        start + window.len() <= bits.len(),
        forall|j: int| 0 <= j < window.len() ==> #[trigger] window[j] == bits[start + j],
    ensures
        ones_seq(window, 0, window.len() as int) == ones_seq(
            bits,
            start,
            start + window.len(),
        ).map_values(|i: int| i - start),
{
    let end = start + window.len();
    let full = ones_seq(bits, start, end);
    let s = full.map_values(|i: int| i - start);
    lemma_ones_seq(bits, start, end);
    assert forall|i: int| s.contains(i) <==> (0 <= i < window.len() && window[i]) by {
        if s.contains(i) {
            let k = choose|k: int| 0 <= k < s.len() && s[k] == i;
            assert(full.contains(full[k]));
        }
        if 0 <= i < window.len() && window[i] {
            assert(full.contains(i + start));
            let k = choose|k: int| 0 <= k < full.len() && full[k] == i + start;
            assert(s[k] == i);
        }
    }
    assert forall|a: int, b: int| 0 <= a < b < s.len() implies s[a] < s[b] by {
        assert(full[a] < full[b]);
    }
    lemma_ones_seq_unique(window, 0, window.len() as int, s);
}

/// A slice of `u32` accessed on the bit level, see [wikipedia][bitset].
///
/// The bit `i` is the bit `i % 32` (least significant first) of the block `i / 32`.
///
/// [bitset]: https://en.wikipedia.org/wiki/Bit_array
#[derive(Clone, PartialEq, Eq, Debug, Default)]
pub struct Bitset(pub Vec<u32>);

impl View for Bitset {
    type V = Seq<bool>;

    open spec fn view(&self) -> Seq<bool> {
        bits_of(self.0@)
    }
}

impl Bitset {
    /// The bit length of this bitset fits in a `usize`.
    pub open spec fn wf(&self) -> bool {
        self.0@.len() * 32 <= usize::MAX
    }

    /// How many bits this bitset holds, a multiple of 32.
    #[inline]
    pub fn bit_len(&self) -> (r: usize)
        requires
            self.wf(),
        ensures
            r == self@.len(),
            r == self.0@.len() * 32,
    {
        self.0.len() * 32
    }

    /// True if bit at `at` is enabled, false if out of bound or disabled.
    #[inline]
    pub fn bit(&self, at: usize) -> (r: bool)
        ensures
            r == (at < self@.len() && self@[at as int]),
    {
        let block = at / 32;
        let offset = (at % 32) as u32;
        let mask = 1u32 << offset;
        if block >= self.0.len() {
            return false;
        }
        let word = self.0[block];
        proof {
            lemma_mask_test(word, offset);
        }
        word & mask == mask
    }

    /// Enables bit at position `bit`.
    ///
    /// Returns `None` and does nothing if `bit` is out of range.
    ///
    /// When [`Bitset::bit(bit)`] will be called next, it will be `true`
    /// if this returned `Some`.
    #[inline]
    pub fn enable_bit(&mut self, bit: usize) -> (r: Option<()>)
        ensures
            r is Some <==> bit < old(self)@.len(),
            r is Some ==> final(self)@ == old(self)@.update(bit as int, true),
            r is None ==> final(self)@ == old(self)@,
            final(self).0@.len() == old(self).0@.len(),
    {
        let block = bit / 32;
        let offset = (bit % 32) as u32;
        if block >= self.0.len() {
            return None;
        }
        let word = self.0[block];
        let new_word = word | (1u32 << offset);
        self.0.set(block, new_word);
        proof {
            let ghost o = old(self)@;
            assert forall|i: int| 0 <= i < o.len() implies #[trigger] final(self)@[i] == o.update(
                bit as int,
                true,
            )[i] by {
                if i / 32 == block {
                    lemma_set_bit(word, offset, (i % 32) as u32);
                }
            }
            assert(final(self)@ =~= o.update(bit as int, true));
        }
        Some(())
    }

    /// Enables bit at position `bit`, extending the vector if necessary.
    ///
    /// When [`Bitset::bit(bit)`] will be called next, it will always be `true`.
    pub fn enable_bit_extending(&mut self, bit: usize)
        requires
            (bit / 32 + 1) * 32 <= usize::MAX,
            old(self).wf(),
        ensures
            final(self).wf(),
            final(self).0@.len() == if bit / 32 < old(self).0@.len() {
                old(self).0@.len() as int
            } else {
                bit / 32 + 1
            },
            final(self)@[bit as int],
            bit < final(self)@.len(),
            final(self)@.len() >= old(self)@.len(),
            forall|i: int|
                0 <= i < final(self)@.len() && i != bit ==> #[trigger] final(self)@[i] == (i
                    < old(self)@.len() && old(self)@[i]),
    {
        let block = bit / 32;
        let offset = (bit % 32) as u32;
        let ghost o = old(self)@;
        let ghost ow = old(self).0@;
        if block >= self.0.len() {
            let extra_blocks = block - self.0.len() + 1;
            self.0.resize(block + 1, 0);
            proof {
                assert forall|i: int| 0 <= i < self@.len() implies #[trigger] self@[i] == (i < o.len()
                    && o[i]) by {
                    if i >= o.len() {
                        assert(self.0@[i / 32] == 0);
                        lemma_zero_bits((i % 32) as u32);
                    }
                }
            }
        }
        let ghost mid = self@;
        let word = self.0[block];
        self.0.set(block, word | (1u32 << offset));
        proof {
            assert forall|i: int| 0 <= i < self@.len() implies #[trigger] self@[i] == (i == bit
                || mid[i]) by {
                if i / 32 == block {
                    lemma_set_bit(word, offset, (i % 32) as u32);
                }
            }
        }
    }

    /// Disables all bits whose position is within `start..end`.
    ///
    /// Positions beyond the bit length are ignored.
    pub fn disable_range(&mut self, range: Range<usize>)
        requires
            old(self).wf(),
        ensures
            final(self).0@.len() == old(self).0@.len(),
            final(self)@ == Seq::new(
                old(self)@.len(),
                |i: int| old(self)@[i] && !(range.start <= i < range.end),
            ),
    {
        let start = range.start;
        let end = range.end;
        let len = self.bit_len();
        let stop = if end < len {
            end
        } else {
            len
        };
        let mut i = start;
        let ghost o = old(self)@;
        while i < stop
            invariant
                self.wf(),
                self.0@.len() == old(self).0@.len(),
                len == o.len(),
                len == self.0@.len() * 32,
                stop <= len,
                stop <= end,
                start <= i || stop <= i,
                forall|k: int|
                    0 <= k < o.len() ==> #[trigger] self@[k] == (o[k] && !(start <= k < i && k
                        < stop)),
            decreases stop - i,
        {
            let block = i / 32;
            let offset = (i % 32) as u32;
            let word = self.0[block];
            let ghost before = self@;
            self.0.set(block, word & !(1u32 << offset));
            proof {
                assert forall|k: int| 0 <= k < o.len() implies #[trigger] self@[k] == (before[k] && k
                    != i) by {
                    if k / 32 == block {
                        lemma_clear_bit(word, offset, (k % 32) as u32);
                    }
                }
            }
            i = i + 1;
        }
        proof {
            assert(self@ =~= Seq::new(o.len(), |k: int| o[k] && !(start <= k < end)));
        }
    }

    /// Enables every bit of `bits`, extending the storage when needed.
    pub fn extend(&mut self, bits: &[usize])
        requires
            old(self).wf(),
            forall|k: int| 0 <= k < bits@.len() ==> (#[trigger] bits@[k] / 32 + 1) * 32 <= usize::MAX,
        ensures
            final(self).wf(),
            final(self)@.len() >= old(self)@.len(),
            forall|k: int| 0 <= k < bits@.len() ==> #[trigger] bits@[k] < final(self)@.len(),
            forall|i: int|
                0 <= i < final(self)@.len() ==> #[trigger] final(self)@[i] == ((i < old(self)@.len()
                    && old(self)@[i]) || exists|k: int| 0 <= k < bits@.len() && bits@[k] == i),
    {
        let mut n: usize = 0;
        let ghost o = old(self)@;
        while n < bits.len()
            invariant
                self.wf(),
                n <= bits@.len(),
                self@.len() >= o.len(),
                forall|k: int| 0 <= k < bits@.len() ==> (#[trigger] bits@[k] / 32 + 1) * 32 <= usize::MAX,
                forall|k: int| 0 <= k < n ==> #[trigger] bits@[k] < self@.len(),
                forall|i: int|
                    0 <= i < self@.len() ==> #[trigger] self@[i] == ((i < o.len() && o[i])
                        || exists|k: int| 0 <= k < n && bits@[k] == i),
            decreases bits@.len() - n,
        {
            let b = bits[n];
            let ghost before = self@;
            self.enable_bit_extending(b);
            proof {
                assert forall|i: int| 0 <= i < self@.len() implies #[trigger] self@[i] == ((i < o.len()
                    && o[i]) || exists|k: int| 0 <= k < n + 1 && bits@[k] == i) by {
                    if i == b {
                        assert(bits@[n as int] == i);
                    } else {
                        if exists|k: int| 0 <= k < n + 1 && bits@[k] == i {
                            let k = choose|k: int| 0 <= k < n + 1 && bits@[k] == i;
                            assert(k < n);
                        }
                    }
                }
            }
            n = n + 1;
        }
    }

    /// The 32 bits starting at bit position `at`, bit `k` of the result being
    /// the bit `at + k` of the bitset.
    ///
    /// `None` if `at + 32` goes beyond the bit length.
    pub fn u32_at(&self, at: usize) -> (r: Option<u32>)
        requires
            self.wf(),
        ensures
            r is Some <==> at + 32 <= self@.len(),
            r matches Some(v) ==> forall|k: u32|
                k < 32 ==> #[trigger] bit_of(v, k) == self@[at + k],
    {
        let len = self.bit_len();
        if at > len || len - at < 32 {
            return None;
        }
        let block = at / 32;
        let offset = (at % 32) as u32;
        if offset == 0 {
            let v = self.0[block];
            return Some(v);
        }
        let a = self.0[block];
        let b = self.0[block + 1];
        let v = (a >> offset) | (b << (32 - offset));
        proof {
            assert forall|k: u32| k < 32 implies #[trigger] bit_of(v, k) == self@[at + k] by {
                lemma_straddle(a, b, offset, k);
            }
        }
        Some(v)
    }

    /// The enabled bits in `start..end`, in ascending order.
    ///
    /// See [`Ones`].
    pub fn ones_in_range(&self, range: Range<usize>) -> (r: Ones<'_>)
        requires
            self.wf(),
            range.start <= self@.len(),
            range.end <= self@.len(),
            range.start / 32 <= (range.end + 31) / 32,
            range.end <= 0x1_0000_0000,
        ensures
            r.wf(),
            r@ == ones_seq(self@, range.start as int, range.end as int),
    {
        let start = range.start;
        let end = range.end;
        let words = self.0.as_slice();
        let first_block = start / 32;
        let end_block = (end + 31) / 32;
        let crop_start = (start % 32) as u32;
        let crop_end = (end % 32) as u32;
        let ghost bits = self@;
        let (mut bitset, next_block) = if first_block < end_block {
            (words[first_block], first_block + 1)
        } else {
            (0u32, first_block)
        };
        let ghost raw = bitset;
        proof {
            lemma_shl_pos(crop_start);
        }
        bitset = bitset & (((1u32 << crop_start) - 1) as u32 ^ 0xffff_ffffu32);
        proof {
            let m = (((1u32 << crop_start) - 1) as u32 ^ 0xffff_ffffu32);
            assert(raw == 0 ==> raw & m == 0) by (bit_vector);
        }
        let ghost low_masked = bitset;
        if next_block >= end_block && crop_end != 0 {
            proof {
                lemma_shl_pos(crop_end);
            }
            let ghost before_crop = bitset;
            bitset = bitset & ((1u32 << crop_end) - 1) as u32;
            proof {
                let m = ((1u32 << crop_end) - 1) as u32;
                assert(before_crop == 0 ==> before_crop & m == 0) by (bit_vector);
            }
        }
        let ones = Ones {
            block_idx: first_block as u32,
            crop: crop_end,
            bitset,
            blocks: words,
            next_block,
            end_block,
            items: Ghost(ones_seq(bits, start as int, end as int)),
        };
        proof {
            lemma_ones_seq(bits, start as int, end as int);
            assert(words@ == self.0@);
            assert forall|i: int| #[trigger] ones.items@.contains(i) <==> ones.has(i) by {
                let blk = i / 32;
                let j = (i % 32) as u32;
                assert(ones.items@.contains(i) == (start <= i < end && bits[i]));
                if 0 <= i && blk < words@.len() {
                    assert(i < bits.len());
                    assert(bits[i] == bit_of(words@[blk], j));
                }
                if first_block < end_block {
                    if 0 <= i && blk == first_block {
                        lemma_mask_low(raw, crop_start, j);
                        assert((start <= i) == (j >= crop_start));
                        if next_block >= end_block && crop_end != 0 {
                            lemma_mask_high(low_masked, crop_end, j);
                            assert(end == first_block * 32 + crop_end);
                            assert((i < end) == (j < crop_end));
                        } else {
                            assert(i < end);
                        }
                    } else if 0 <= i && next_block <= blk < end_block {
                        assert(start <= i);
                        if blk + 1 == end_block && crop_end != 0 {
                            lemma_mask_high(words@[blk], crop_end, j);
                            assert(end == blk * 32 + crop_end);
                            assert((i < end) == (j < crop_end));
                        } else {
                            assert(i < end);
                        }
                    } else if 0 <= i {
                        assert(blk < first_block || blk >= end_block);
                        assert(!(start <= i < end));
                    }
                } else {
                    assert(end <= start);
                    if 0 <= i && blk == first_block {
                        lemma_zero_bits(j);
                    }
                }
            }
        }
        ones
    }
}

/// Iterator over the enabled bits of a [`Bitset`] within a range, see
/// [`Bitset::ones_in_range`].
pub struct Ones<'a> {
    /// Index of the block `bitset` was read from.
    block_idx: u32,
    /// How many bits to keep in the last block.
    crop: u32,
    /// The bits not yet returned of the block at `block_idx`.
    bitset: u32,
    blocks: &'a [u32],
    /// Index in `blocks` of the next block to read.
    next_block: usize,
    /// Index in `blocks` one past the last block to read.
    end_block: usize,
    /// The positions this iterator will still return, in order.
    items: Ghost<Seq<int>>,
}

impl<'a> View for Ones<'a> {
    type V = Seq<int>;

    closed spec fn view(&self) -> Seq<int> {
        self.items@
    }
}

impl<'a> Ones<'a> {
    /// The block at index `b` of `blocks`, as it will be read: the last block
    /// keeps only its `crop` lowest bits when `crop` is not zero.
    pub closed spec fn cropped(&self, b: int) -> u32 {
        if b + 1 == self.end_block && self.crop != 0 {
            self.blocks@[b] & ((1u32 << self.crop) - 1) as u32
        } else {
            self.blocks@[b]
        }
    }

    /// Whether position `i` is still to be returned, read off the fields.
    pub closed spec fn has(&self, i: int) -> bool {
        &&& 0 <= i
        &&& {
            ||| (i / 32 == self.block_idx && bit_of(self.bitset, (i % 32) as u32))
            ||| (self.next_block <= i / 32 < self.end_block && bit_of(
                self.cropped(i / 32),
                (i % 32) as u32,
            ))
        }
    }

    /// The fields agree with the positions still to be returned.
    pub closed spec fn wf(&self) -> bool {
        &&& self.next_block <= self.end_block <= self.blocks@.len()
        &&& self.block_idx + 1 == self.next_block || (self.block_idx == self.next_block
            && self.bitset == 0)
        &&& self.end_block * 32 <= 0x1_0000_0000
        &&& self.crop < 32
        &&& strictly_ascending(self.items@)
        &&& forall|i: int| #[trigger] self.items@.contains(i) <==> self.has(i)
    }

    proof fn lemma_items_in_bounds(&self)
        requires
            self.wf(),
        ensures
            forall|k: int|
                0 <= k < self@.len() ==> 0 <= #[trigger] self@[k] < self.end_block * 32,
            forall|k: int|
                0 <= k < self@.len() ==> #[trigger] self@[k] >= self.block_idx * 32,
    {
        assert forall|k: int| 0 <= k < self@.len() implies 0 <= #[trigger] self@[k]
            < self.end_block * 32 && self@[k] >= self.block_idx * 32 by {
            assert(self.items@.contains(self@[k]));
            let i = self@[k];
            if i / 32 == self.block_idx && self.bitset == 0 {
                lemma_zero_bits((i % 32) as u32);
            }
        }
    }

    /// Return the next enabled bit, in ascending order.
    pub fn next(&mut self) -> (r: Option<u32>)
        requires
            old(self).wf(),
        ensures
            final(self).wf(),
            old(self)@.len() == 0 ==> r is None && final(self)@ == old(self)@,
            old(self)@.len() > 0 ==> (r matches Some(v) && v as int == old(self)@[0]),
            old(self)@.len() > 0 ==> final(self)@ == old(self)@.drop_first(),
    {
        proof {
            self.lemma_items_in_bounds();
        }
        while self.bitset == 0
            invariant
                self.wf(),
                self@ == old(self)@,
                self.blocks == old(self).blocks,
                self.end_block == old(self).end_block,
                self.crop == old(self).crop,
            decreases self.end_block - self.next_block,
        {
            if self.next_block >= self.end_block {
                proof {
                    if self@.len() > 0 {
                        let i = self@[0];
                        assert(self.items@.contains(i));
                        lemma_zero_bits((i % 32) as u32);
                    }
                }
                return None;
            }
            let ghost prev = *self;
            let mut word = self.blocks[self.next_block];
            if self.next_block + 1 == self.end_block && self.crop != 0 {
                proof {
                    lemma_shl_pos(self.crop);
                }
                word = word & ((1u32 << self.crop) - 1) as u32;
            }
            self.bitset = word;
            self.block_idx = self.next_block as u32;
            self.next_block = self.next_block + 1;
            proof {
                assert forall|i: int| #[trigger] self.items@.contains(i) <==> self.has(i) by {
                    if 0 <= i && i / 32 == prev.block_idx {
                        lemma_zero_bits((i % 32) as u32);
                    }
                    assert(self.cropped(i / 32) == prev.cropped(i / 32));
                }
            }
        }
        let ghost pre = *self;
        let bitset = self.bitset;
        let r = bitset.trailing_zeros();
        let t = bitset & 0u32.wrapping_sub(bitset);
        proof {
            lemma_pop_lowest(bitset, t);
            assert(self.block_idx + 1 == self.next_block);
            assert(self.block_idx * 32 + 32 <= 0x1_0000_0000);
        }
        let found = self.block_idx * 32 + r;
        self.bitset = bitset ^ t;
        let ghost old_items = pre.items@;
        proof {
            let x = found as int;
            assert(x / 32 == pre.block_idx && x % 32 == r);
            assert(pre.has(x));
            assert(old_items.contains(x));
            assert forall|i: int| #[trigger] self.has(i) == (pre.has(i) && i != x) by {
                if 0 <= i && i / 32 == pre.block_idx {
                    let j = (i % 32) as u32;
                    assert(bit_of(bitset ^ t, j) == (j != r && bit_of(bitset, j)));
                    assert((i != x) == (j != r));
                }
            }
            // `x` is the smallest remaining position.
            assert forall|k: int| 0 <= k < old_items.len() implies x <= #[trigger] old_items[k] by {
                let i = old_items[k];
                assert(old_items.contains(i));
                assert(pre.has(i));
                if i / 32 == pre.block_idx && i < x {
                    let j = (i % 32) as u32;
                    assert(j < r);
                    assert(!bit_of(bitset, j));
                }
            }
            assert(old_items[0] == x) by {
                let k = choose|k: int| 0 <= k < old_items.len() && old_items[k] == x;
                if k > 0 {
                    assert(old_items[0] < old_items[k]);
                }
            }
            self.items@ = old_items.drop_first();
            assert forall|i: int| #[trigger] self.items@.contains(i) <==> self.has(i) by {
                if self.items@.contains(i) {
                    let k = choose|k: int| 0 <= k < self.items@.len() && self.items@[k] == i;
                    assert(old_items[k + 1] == i);
                    assert(old_items.contains(i));
                    assert(old_items[0] < old_items[k + 1]);
                }
                if self.has(i) {
                    assert(i != x);
                    assert(old_items.contains(i));
                    let k = choose|k: int| 0 <= k < old_items.len() && old_items[k] == i;
                    assert(k != 0);
                    assert(self.items@[k - 1] == i);
                }
            }
        }
        Some(found)
    }

    /// Collect all remaining enabled bits, in ascending order.
    pub fn to_vec(&mut self) -> (r: Vec<u32>)
        requires
            old(self).wf(),
        ensures
            final(self).wf(),
            final(self)@.len() == 0,
            r@.len() == old(self)@.len(),
            forall|k: int| 0 <= k < r@.len() ==> #[trigger] r@[k] as int == old(self)@[k],
    {
        let mut out: Vec<u32> = Vec::new();
        loop
            invariant
                self.wf(),
                out@.len() + self@.len() == old(self)@.len(),
                forall|k: int| 0 <= k < out@.len() ==> #[trigger] out@[k] as int == old(self)@[k],
                forall|k: int|
                    0 <= k < self@.len() ==> #[trigger] self@[k] == old(self)@[k + out@.len()],
            decreases self@.len(),
        {
            let ghost before = self@;
            match self.next() {
                Some(v) => {
                    proof {
                        assert(before[0] == old(self)@[out@.len() as int]);
                    }
                    out.push(v);
                },
                None => {
                    return out;
                },
            }
        }
    }
}

} // verus!
