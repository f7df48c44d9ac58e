//! An [associative arrays] of small integers.
//!
//! [associative arrays]: https://en.wikipedia.org/wiki/Associative_array
use vstd::prelude::*;

use std::marker::PhantomData;

use crate::bits::{bit_of, lemma_no_bits_is_zero};
use crate::bitset::Bitset;
use crate::index_multimap::{max_key_of, max_value_of};
use crate::{Index, MostSignificantBit};

verus! {

/// The `width` bits of `bits` starting at `offset` are the low bits of `x`.
pub open spec fn row_holds(bits: Seq<bool>, offset: int, width: nat, x: u32) -> bool {
    forall|j: u32| j < width ==> #[trigger] bits[offset + j] == bit_of(x, j)
}

/// The number whose `width` low bits are the bits of `bits` starting at
/// `offset`, all its other bits being zero.
pub open spec fn row_value(bits: Seq<bool>, offset: int, width: nat) -> u32
    decreases width,
{
    if width == 0 || width > 32 {
        0
    } else {
        let low = row_value(bits, offset, (width - 1) as nat);
        if bits[offset + width - 1] {
            low | (1u32 << ((width - 1) as u32))
        } else {
            low
        }
    }
}

/// The bits of `row_value` are those of its row.
pub proof fn lemma_row_value(bits: Seq<bool>, offset: int, width: nat)
    requires
        width <= 32,
    ensures
        forall|j: u32|
            j < 32 ==> #[trigger] bit_of(row_value(bits, offset, width), j) == (j < width && bits[offset
                + j]),
    decreases width,
{
    if width == 0 {
        assert forall|j: u32| j < 32 implies !#[trigger] bit_of(0u32, j) by {
            crate::bits::lemma_zero_bits(j);
        }
    } else {
        lemma_row_value(bits, offset, (width - 1) as nat);
        let low = row_value(bits, offset, (width - 1) as nat);
        let m = (width - 1) as u32;
        assert forall|j: u32| j < 32 implies #[trigger] bit_of(row_value(bits, offset, width), j) == (j
            < width && bits[offset + j]) by {
            assert(bit_of(low, j) == (j < m && bits[offset + j]));
            if bits[offset + m] {
                crate::bits::lemma_set_bit(low, m, j);
            }
        }
    }
}

/// `row_value` depends only on the bits of its row.
pub proof fn lemma_row_value_frame(a: Seq<bool>, b: Seq<bool>, offset: int, width: nat)
    requires
        forall|j: int| 0 <= j < width ==> #[trigger] a[offset + j] == b[offset + j],
    ensures
        row_value(a, offset, width) == row_value(b, offset, width),
    decreases width,
{
    if width > 0 && width <= 32 {
        lemma_row_value_frame(a, b, offset, (width - 1) as nat);
        assert(a[offset + (width - 1)] == b[offset + (width - 1)]);
    }
}

/// A number below `2ⁿ` has no bit set at or above `n`.
proof fn lemma_high_bits_clear(x: u32, n: u32, j: u32)
    requires
        n < 32,
        j < 32,
        n <= j,
        x < vstd::arithmetic::power2::pow2(n as nat),
    ensures
        !bit_of(x, j),
{
    vstd::bits::lemma_u32_pow2_no_overflow(n as nat);
    vstd::bits::lemma_u32_shl_is_mul(1, n);
    assert(((x >> j) & 1u32) != 1u32) by (bit_vector)
        requires
            n < 32,
            j < 32,
            n <= j,
            x < (1u32 << n),
    ;
}

/// Two numbers with the same bits are equal.
proof fn lemma_bits_eq(x: u32, y: u32)
    requires
        forall|j: u32| j < 32 ==> #[trigger] bit_of(x, j) == bit_of(y, j),
    ensures
        x == y,
{
    let z = x ^ y;
    assert forall|j: u32| j < 32 implies !#[trigger] bit_of(z, j) by {
        assert(bit_of(x, j) == bit_of(y, j));
        assert((((x ^ y) >> j) & 1u32 == 1u32) == ((((x >> j) & 1u32) == 1u32) != (((y >> j) & 1u32)
            == 1u32))) by (bit_vector);
    }
    lemma_no_bits_is_zero(z);
    assert(x ^ y == 0 ==> x == y) by (bit_vector);
}

/// An [associative arrays] of small integers.
///
/// This is a 1-to-(1|0) mapping, see [`IndexMultimap`] for N-to-M mapping.
///
/// Each key has a row of `value_width` bits holding its value. When all the
/// bits of a row are set, the row is empty (this allows storing `0`).
///
/// [`IndexMultimap`]: crate::index_multimap::IndexMultimap
/// [associative arrays]: https://en.wikipedia.org/wiki/Associative_array
#[derive(Debug)]
pub struct IndexMap<K: Index, V: From<u32>> {
    indices: Bitset,
    value_width: usize,
    _tys: PhantomData<(K, V)>,
}

impl<K: Index, V: From<u32>> IndexMap<K, V> {
    /// The rows of all keys, one after the other.
    pub closed spec fn bits(&self) -> Seq<bool> {
        self.indices@
    }

    /// How many bits each row holds.
    pub closed spec fn width(&self) -> nat {
        self.value_width as nat
    }

    /// Where the row of `key` starts.
    pub open spec fn offset(&self, key: K) -> int {
        (key.spec_index() * self.width()) as int
    }

    /// The bit length fits in a `usize`, rows are at most 32 bits wide.
    pub closed spec fn wf(&self) -> bool {
        &&& self.indices.wf()
        &&& 0 < self.value_width <= 32
    }

    /// The value stored in the row of `key`, if any.
    pub open spec fn spec_get(&self, key: K) -> Option<u32> {
        let off = self.offset(key);
        if off + self.width() <= self.bits().len() && exists|j: u32|
            j < self.width() && !#[trigger] self.bits()[off + j] {
            Some(row_value(self.bits(), off, self.width()))
        } else {
            None
        }
    }

    /// You may **not** insert values larger than `max_value` nor keys larger
    /// than `max_key`.
    ///
    /// Rows are as wide as the number of bits of `max_value + 1`, there is
    /// one for each key up to `max_key`, and every row starts empty.
    pub fn new_with_size(max_value: u32, max_key: usize) -> (r: Self)
        requires
            max_value < u32::MAX,
            33 * (max_key + 1) + 4 <= usize::MAX,
            ((33 * (max_key + 1) + 3) / 4) * 32 <= usize::MAX,
        ensures
            r.wf(),
            crate::is_bit_width(max_value + 1, r.width()),
            r.bits().len() == ((r.width() * (max_key + 1) + 3) / 4) * 32,
            forall|i: int| 0 <= i < r.bits().len() ==> #[trigger] r.bits()[i],
            forall|k: int| 0 <= k <= max_key ==> #[trigger] (k * r.width()) + r.width() <= r.bits().len(),
            max_value + 1 < 0x8000_0000 ==> r.width() < 32,
    {
        let height = max_key + 1;
        let value_width = (max_value + 1).most_significant_bit() as usize;
        proof {
            assert(value_width > 0) by {
                if value_width == 0 {
                    vstd::arithmetic::power2::lemma2_to64();
                }
            }
            assert(value_width <= 32) by {
                if value_width > 32 {
                    vstd::arithmetic::power2::lemma2_to64();
                    vstd::arithmetic::power2::lemma_pow2_strictly_increases(32, (value_width - 1) as nat);
                }
            }
            assert(value_width * height <= 32 * height) by (nonlinear_arith)
                requires
                    value_width <= 32,
            ;
        }
        let bit_size = value_width * height;
        let u32_size = crate::div_ceil(bit_size, 4);
        let data: Vec<u32> = vec![0xffff_ffffu32; u32_size];
        let indices = Bitset(data);
        proof {
            assert forall|i: int| 0 <= i < indices@.len() implies #[trigger] indices@[i] by {
                crate::bits::lemma_max_bits((i % 32) as u32);
            }
        }
        proof {
            if max_value + 1 < 0x8000_0000 && value_width >= 32 {
                vstd::arithmetic::power2::lemma2_to64();
                if value_width > 32 {
                    vstd::arithmetic::power2::lemma_pow2_strictly_increases(31, (value_width - 1) as nat);
                }
            }
            assert forall|k: int| 0 <= k <= max_key implies #[trigger] (k * value_width) + value_width
                <= indices@.len() by {
                assert(k * value_width + value_width <= value_width * height) by (nonlinear_arith)
                    requires
                        0 <= k <= max_key,
                        height == max_key + 1,
                        value_width >= 0,
                ;
                assert(value_width * height <= ((value_width * height + 3) / 4) * 32) by (nonlinear_arith);
            }
        }
        IndexMap { indices, value_width, _tys: PhantomData }
    }

    /// Where the row of `index` starts.
    pub fn row_index(&self, index: &K) -> (r: usize)
        requires
            index.spec_index() * self.width() <= usize::MAX,
        ensures
            r == self.offset(*index),
    {
        index.get() * self.value_width
    }

    /// The mask of the `value_width` low bits.
    pub fn value_mask(&self) -> (r: u32)
        requires
            self.width() < 32,
        ensures
            r as int == vstd::arithmetic::power2::pow2(self.width()) - 1,
            forall|j: u32| j < 32 ==> #[trigger] bit_of(r, j) == (j < self.width()),
    {
        let w = self.value_width as u32;
        proof {
            vstd::bits::lemma_u32_pow2_no_overflow(w as nat);
            vstd::bits::lemma_u32_shl_is_mul(1, w);
            crate::bits::lemma_shl_pos(w);
        }
        let r = (1u32 << w) - 1;
        proof {
            assert forall|j: u32| j < 32 implies #[trigger] bit_of(r, j) == (j < w) by {
                assert(((((1u32 << w) - 1) as u32 >> j) & 1u32 == 1u32) == (j < w)) by (bit_vector)
                    requires
                        w < 32,
                        j < 32,
                ;
            }
        }
        r
    }

    /// Remove value associated with `key`. Calling `map.get(key)` will return
    /// `None`.
    pub fn remove(&mut self, key: &K)
        requires
            old(self).wf(),
            old(self).offset(*key) + old(self).width() <= old(self).bits().len(),
        ensures
            final(self).wf(),
            final(self).width() == old(self).width(),
            final(self).bits().len() == old(self).bits().len(),
            forall|i: int|
                0 <= i < final(self).bits().len() ==> #[trigger] final(self).bits()[i] == if old(
                    self,
                ).offset(*key) <= i < old(self).offset(*key) + old(self).width() {
                    true
                } else {
                    old(self).bits()[i]
                },
            final(self).spec_get(*key) is None,
            forall|k2: K|
                k2.spec_index() != key.spec_index() ==> #[trigger] final(self).spec_get(k2) == old(
                    self,
                ).spec_get(k2),
    {
        let offset = self.row_index(key);
        let end = offset + self.value_width;
        let mut i = offset;
        while i < end
            invariant
                self.wf(),
                self.value_width == old(self).value_width,
                offset <= i <= end,
                end <= self.bits().len(),
                self.bits().len() == old(self).bits().len(),
                forall|p: int|
                    0 <= p < self.bits().len() ==> #[trigger] self.bits()[p] == if offset <= p < i {
                        true
                    } else {
                        old(self).bits()[p]
                    },
            decreases end - i,
        {
            let _ = self.indices.enable_bit(i);
            i = i + 1;
        }
        proof {
            law_get_after_remove(*self, *key);
            self.lemma_frame(*old(self), *key);
        }
    }

    /// Reading a key whose row does not overlap the row of `key` gives the
    /// same in `self` and in `other`, when they differ only in that row.
    proof fn lemma_frame(&self, other: Self, key: K)
        requires
            self.width() <= 32,
            self.width() == other.width(),
            self.bits().len() == other.bits().len(),
            forall|i: int|
                0 <= i < self.bits().len() && !(self.offset(key) <= i < self.offset(key) + self.width())
                    ==> #[trigger] self.bits()[i] == other.bits()[i],
        ensures
            forall|k2: K|
                k2.spec_index() != key.spec_index() ==> #[trigger] self.spec_get(k2) == other.spec_get(k2),
    {
        assert forall|k2: K| k2.spec_index() != key.spec_index() implies #[trigger] self.spec_get(k2)
            == other.spec_get(k2) by {
            let w = self.width() as int;
            let off2 = self.offset(k2);
            if off2 + w <= self.bits().len() {
                assert forall|j: int| 0 <= j < w implies #[trigger] self.bits()[off2 + j] == other.bits()[off2
                    + j] by {
                    lemma_rows_apart(k2.spec_index() as int, key.spec_index() as int, w, j);
                    assert(0 <= off2 + j < self.bits().len());
                }
                law_get_frame(*self, other, k2);
            }
        }
    }

    /// Set value of `key` to `value`.
    ///
    /// You may **not** set values larger than the `max_value` this map was
    /// created with: the value must leave at least one bit of its row unset.
    pub fn set(&mut self, key: &K, value: &V)
        where
            V: Index,
        requires
            old(self).wf(),
            old(self).width() < 32,
            old(self).offset(*key) + old(self).width() <= old(self).bits().len(),
            value.spec_index() + 1 < vstd::arithmetic::power2::pow2(old(self).width()),
        ensures
            final(self).wf(),
            final(self).width() == old(self).width(),
            final(self).bits().len() == old(self).bits().len(),
            row_holds(final(self).bits(), old(self).offset(*key), old(self).width(), value.spec_index() as u32),
            forall|i: int|
                0 <= i < final(self).bits().len() && !(old(self).offset(*key) <= i < old(self).offset(
                    *key,
                ) + old(self).width()) ==> #[trigger] final(self).bits()[i] == old(self).bits()[i],
            final(self).spec_get(*key) == Some(value.spec_index() as u32),
            forall|k2: K|
                k2.spec_index() != key.spec_index() ==> #[trigger] final(self).spec_get(k2) == old(
                    self,
                ).spec_get(k2),
    {
        let v = value.get() as u32;
        let offset = self.row_index(key);
        let end = offset + self.value_width;
        let ghost w = self.value_width as u32;
        proof {
            vstd::bits::lemma_u32_pow2_no_overflow(w as nat);
        }
        self.indices.disable_range(offset..end);
        let ghost cleared = self.bits();
        let mut j: usize = 0;
        while j < self.value_width
            invariant
                self.wf(),
                self.value_width == old(self).value_width,
                w == self.value_width,
                j <= w,
                end == offset + w,
                end <= self.bits().len(),
                self.bits().len() == old(self).bits().len(),
                forall|p: int|
                    0 <= p < self.bits().len() ==> #[trigger] self.bits()[p] == if offset <= p < end {
                        p < offset + j && bit_of(v, (p - offset) as u32)
                    } else {
                        old(self).bits()[p]
                    },
            decreases w - j,
        {
            if (v >> (j as u32)) & 1 == 1 {
                let _ = self.indices.enable_bit(offset + j);
            }
            j = j + 1;
        }
        proof {
            assert forall|k: u32| k < w implies #[trigger] self.bits()[offset + k] == bit_of(v, k) by {
                assert(self.bits()[offset + k] == (offset + k < offset + w && bit_of(v, k)));
            }
            law_get_after_set(*self, *key, v);
            self.lemma_frame(*old(self), *key);
        }
    }

    /// Get the value associated with `index`, `None` if there isn't: when
    /// its row is empty (all its bits set) or goes past the storage.
    pub fn get(&self, index: &K) -> (r: Option<V>)
        requires
            self.wf(),
            self.width() < 32,
            self.offset(*index) <= usize::MAX,
        ensures
            r is Some <==> self.spec_get(*index) is Some,
            r matches Some(v) ==> (<V as vstd::std_specs::convert::FromSpec<u32>>::obeys_from_spec()
                ==> v == <V as vstd::std_specs::convert::FromSpec<u32>>::from_spec(
                self.spec_get(*index)->Some_0,
            )),
    {
        let off = self.row_index(index);
        let w = self.value_width;
        let len = self.indices.bit_len();
        if off > len || w > len - off {
            return None;
        }
        let ghost bits = self.bits();
        let mut value: u32 = 0;
        let mut j: usize = 0;
        while j < w
            invariant
                j <= w,
                w == self.width(),
                w < 32,
                bits == self.bits(),
                len == bits.len(),
                off + w <= bits.len(),
                value == row_value(bits, off as int, j as nat),
            decreases w - j,
        {
            if self.indices.bit(off + j) {
                value = value | (1u32 << (j as u32));
            }
            j = j + 1;
        }
        let mask = self.value_mask();
        proof {
            lemma_row_value(bits, off as int, w as nat);
            if value == mask {
                assert forall|i: u32| i < w implies #[trigger] bits[off + i] by {
                    assert(bit_of(mask, i));
                    assert(bit_of(value, i) == (i < w && bits[off + i]));
                }
            } else {
                if forall|i: u32| i < w ==> #[trigger] bits[off + i] {
                    assert forall|i: u32| i < 32 implies #[trigger] bit_of(value, i) == bit_of(mask, i) by {}
                    lemma_bits_eq(value, mask);
                }
            }
        }
        if value != mask {
            Some(V::from(value))
        } else {
            None
        }
    }
}

/// The value set for a key is the value then read for it, as long as its
/// row is read within the storage.
pub proof fn law_get_after_set<K: Index, V: From<u32>>(map: IndexMap<K, V>, key: K, value: u32)
    requires
        map.wf(),
        map.width() < 32,
        row_holds(map.bits(), map.offset(key), map.width(), value),
        value + 1 < vstd::arithmetic::power2::pow2(map.width()),
        map.offset(key) + map.width() <= map.bits().len(),
    ensures
        map.spec_get(key) == Some(value),
{
    let w = map.width() as u32;
    let off = map.offset(key);
    let bits = map.bits();
    vstd::bits::lemma_u32_pow2_no_overflow(w as nat);
    vstd::bits::lemma_u32_shl_is_mul(1, w);
    let rv = row_value(bits, off, w as nat);
    lemma_row_value(bits, off, w as nat);
    assert forall|j: u32| j < 32 implies #[trigger] bit_of(rv, j) == bit_of(value, j) by {
        if j < w {
            assert(bits[off + j] == bit_of(value, j));
        } else {
            lemma_high_bits_clear(value, w, j);
        }
    }
    lemma_bits_eq(rv, value);
    // `value` is not the all-ones row, so one of its bits is unset
    let mask = ((1u32 << w) - 1) as u32;
    assert forall|j: u32| j < 32 implies #[trigger] bit_of(mask, j) == (j < w) by {
        assert(((((1u32 << w) - 1) as u32 >> j) & 1u32 == 1u32) == (j < w)) by (bit_vector)
            requires
                w < 32,
                j < 32,
        ;
    }
    if forall|j: u32| j < w ==> #[trigger] bit_of(value, j) {
        assert forall|j: u32| j < 32 implies #[trigger] bit_of(value, j) == bit_of(mask, j) by {
            if j >= w {
                lemma_high_bits_clear(value, w, j);
            }
        }
        lemma_bits_eq(value, mask);
    }
    let j = choose|j: u32| j < w && !#[trigger] bit_of(value, j);
    assert(!bits[off + j]);
}

/// A key whose row bits are all set (as [`IndexMap::remove`] leaves them)
/// has no value.
pub proof fn law_get_after_remove<K: Index, V: From<u32>>(map: IndexMap<K, V>, key: K)
    requires
        forall|j: u32| j < map.width() ==> #[trigger] map.bits()[map.offset(key) + j],
    ensures
        map.spec_get(key) is None,
{
}

/// What is read for a key depends only on the bits of its row: changing the
/// row of another key, as [`IndexMap::set`] and [`IndexMap::remove`] do,
/// leaves it alone.
pub proof fn law_get_frame<K: Index, V: From<u32>>(a: IndexMap<K, V>, b: IndexMap<K, V>, key: K)
    requires
        a.width() == b.width(),
        a.bits().len() == b.bits().len(),
        forall|j: int|
            0 <= j < a.width() ==> #[trigger] a.bits()[a.offset(key) + j] == b.bits()[a.offset(key)
                + j],
    ensures
        a.spec_get(key) == b.spec_get(key),
{
    let off = a.offset(key);
    let w = a.width();
    lemma_row_value_frame(a.bits(), b.bits(), off, w);
    if exists|j: u32| j < w && !#[trigger] a.bits()[off + j] {
        let j = choose|j: u32| j < w && !#[trigger] a.bits()[off + j];
        assert(a.bits()[off + j as int] == b.bits()[off + j as int]);
    }
    if exists|j: u32| j < w && !#[trigger] b.bits()[off + j] {
        let j = choose|j: u32| j < w && !#[trigger] b.bits()[off + j];
        assert(a.bits()[off + j as int] == b.bits()[off + j as int]);
    }
}

/// The value index of the last pair of `pairs[..n]` whose key index is `key`.
pub open spec fn last_value<K: Index, V: Index>(pairs: Seq<(K, V)>, key: nat, n: int) -> Option<nat>
    decreases n,
{
    if n <= 0 {
        None
    } else if pairs[n - 1].0.spec_index() == key {
        Some(pairs[n - 1].1.spec_index())
    } else {
        last_value(pairs, key, n - 1)
    }
}

proof fn lemma_max_of<K: Index, V: Index>(pairs: Seq<(K, V)>, j: int)
    requires
        0 <= j < pairs.len(),
    ensures
        pairs[j].0.spec_index() <= max_key_of(pairs),
        pairs[j].1.spec_index() <= max_value_of(pairs),
    decreases pairs.len(),
{
    if j < pairs.len() - 1 {
        assert(pairs.drop_last()[j] == pairs[j]);
        lemma_max_of(pairs.drop_last(), j);
    }
}

proof fn lemma_last_value_bound<K: Index, V: Index>(pairs: Seq<(K, V)>, key: nat, n: int)
    requires
        0 <= n <= pairs.len(),
    ensures
        last_value(pairs, key, n) matches Some(v) ==> v <= max_value_of(pairs) && key
            <= max_key_of(pairs),
    decreases n,
{
    if n > 0 {
        lemma_max_of(pairs, n - 1);
        lemma_last_value_bound(pairs, key, n - 1);
    }
}

/// Bit `j` of row `a` is outside row `b` when `a != b`, rows being `w` bits
/// wide.
proof fn lemma_rows_apart(a: int, b: int, w: int, j: int)
    requires
        0 <= a,
        0 <= b,
        a != b,
        0 <= j < w,
    ensures
        !(b * w <= a * w + j < b * w + w),
{
    if a < b {
        assert(a * w + w <= b * w) by (nonlinear_arith)
            requires
                a < b,
                0 <= w,
        ;
    } else {
        assert(b * w + w <= a * w) by (nonlinear_arith)
            requires
                b < a,
                0 <= w,
        ;
    }
}

impl<K: Index, V: From<u32> + Index> IndexMap<K, V> {
    /// Create an [`IndexMap`] where the value at key `k` is `value` in the
    /// last pair `(key, value)` of `pairs` where `key == k`; the rows of the
    /// other keys stay empty.
    pub fn from_pairs(pairs: Vec<(K, V)>) -> (r: Self)
        requires
            max_value_of(pairs@) + 1 < 0x8000_0000,
            33 * (max_key_of(pairs@) + 1) + 4 <= usize::MAX,
            ((33 * (max_key_of(pairs@) + 1) + 3) / 4) * 32 <= usize::MAX,
        ensures
            r.wf(),
            r.width() < 32,
            crate::is_bit_width(max_value_of(pairs@) + 1int, r.width()),
            forall|q: nat| #[trigger]
                last_value(pairs@, q, pairs@.len() as int) matches Some(v) ==> row_holds(
                    r.bits(),
                    (q * r.width()) as int,
                    r.width(),
                    v as u32,
                ),
            forall|q: nat, j: int|
                q <= max_key_of(pairs@) && last_value(pairs@, q, pairs@.len() as int) is None && 0
                    <= j < r.width() && q * r.width() + j < r.bits().len() ==> #[trigger] r.bits()[q
                    * r.width() + j],
    {
        let mut max_value: usize = 0;
        let mut max_key: usize = 0;
        let mut i: usize = 0;
        while i < pairs.len()
            invariant
                i <= pairs@.len(),
                max_value == max_value_of(pairs@.take(i as int)),
                max_key == max_key_of(pairs@.take(i as int)),
            decreases pairs@.len() - i,
        {
            let k = pairs[i].0.get();
            let v = pairs[i].1.get();
            proof {
                assert(pairs@.take(i + 1).drop_last() =~= pairs@.take(i as int));
            }
            if k > max_key {
                max_key = k;
            }
            if v > max_value {
                max_value = v;
            }
            i = i + 1;
        }
        proof {
            assert(pairs@.take(pairs@.len() as int) =~= pairs@);
        }
        let mut map: IndexMap<K, V> = IndexMap::new_with_size(max_value as u32, max_key);
        let ghost w = map.width();
        proof {
            assert(w < 32) by {
                vstd::arithmetic::power2::lemma2_to64();
                if w > 32 {
                    vstd::arithmetic::power2::lemma_pow2_strictly_increases(31, (w - 1) as nat);
                }
            }
            assert(w * (max_key + 1) <= 32 * (max_key + 1)) by (nonlinear_arith)
                requires
                    w < 32,
            ;
        }
        let ghost len = map.bits().len();
        let mut i: usize = 0;
        while i < pairs.len()
            invariant
                i <= pairs@.len(),
                map.wf(),
                map.width() == w,
                w < 32,
                map.bits().len() == len,
                len == ((w * (max_key + 1) + 3) / 4) * 32,
                max_key == max_key_of(pairs@),
                max_value == max_value_of(pairs@),
                crate::is_bit_width(max_value + 1, w),
                forall|q: nat| #[trigger]
                    last_value(pairs@, q, i as int) matches Some(v) ==> row_holds(
                        map.bits(),
                        (q * w) as int,
                        w,
                        v as u32,
                    ),
                forall|q: nat, j: int|
                    q <= max_key && last_value(pairs@, q, i as int) is None && 0 <= j < w && q * w
                        + j < len ==> #[trigger] map.bits()[q * w + j],
            decreases pairs@.len() - i,
        {
            let ghost key = pairs@[i as int].0.spec_index();
            let ghost value = pairs@[i as int].1.spec_index();
            proof {
                lemma_max_of(pairs@, i as int);
                assert(key * w + w <= len) by (nonlinear_arith)
                    requires
                        key <= max_key,
                        w < 32,
                        len == ((w * (max_key + 1) + 3) / 4) * 32,
                ;
                assert(value + 1 < vstd::arithmetic::power2::pow2(w)) by {
                    assert(value + 1 <= max_value + 1);
                }
            }
            let ghost before = map.bits();
            map.set(&pairs[i].0, &pairs[i].1);
            proof {
                assert forall|q: nat| #[trigger]
                    last_value(pairs@, q, i + 1) is Some implies row_holds(
                    map.bits(),
                    (q * w) as int,
                    w,
                    last_value(pairs@, q, i + 1)->Some_0 as u32,
                ) by {
                    if q != key {
                        let v = last_value(pairs@, q, i + 1)->Some_0;
                        assert(last_value(pairs@, q, i as int) == Some(v));
                        lemma_last_value_bound(pairs@, q, i as int);
                        assert(row_holds(before, (q * w) as int, w, v as u32));
                        assert forall|j: u32| j < w implies #[trigger] map.bits()[(q * w) as int + j]
                            == bit_of(v as u32, j) by {
                            lemma_rows_apart(q as int, key as int, w as int, j as int);
                            assert((q * w) as int + j < len) by (nonlinear_arith)
                                requires
                                    q <= max_key,
                                    j < w,
                                    w < 32,
                                    len == ((w * (max_key + 1) + 3) / 4) * 32,
                            ;
                            assert(before[(q * w) as int + j] == bit_of(v as u32, j));
                        }
                    }
                }
                assert forall|q: nat, j: int|
                    q <= max_key && last_value(pairs@, q, i + 1) is None && 0 <= j < w && q * w + j
                        < len implies #[trigger] map.bits()[q * w + j] by {
                    assert(q != key);
                    lemma_rows_apart(q as int, key as int, w as int, j);
                    assert(q * w + j < len) by (nonlinear_arith)
                        requires
                            q <= max_key,
                            0 <= j < w,
                            w < 32,
                            len == ((w * (max_key + 1) + 3) / 4) * 32,
                    ;
                    assert(before[q * w + j]);
                }
            }
            i = i + 1;
        }
        map
    }
}

} // verus!
