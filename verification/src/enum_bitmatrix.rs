//! A bit matrix with one row per variant of an enum: rows are numbered as the
//! variants are, a set of rows is a mask with one bit per row.
use vstd::prelude::*;

use std::ops::Range;

use crate::bits::lemma_zero_bits;
use crate::bitset::{bits_of, ones_seq, Bitset};
use crate::div_ceil;
use crate::resolve::{contains_field, has_field};

verus! {

/// A bit matrix of `variants` rows, one per variant of an enum, each of
/// [`EnumBitMatrix::bit_width`] bits.
pub struct EnumBitMatrix {
    bits: Bitset,
    variants: u32,
}

/// The width in bits of the rows of a matrix of `blocks` blocks and
/// `variants` rows.
pub open spec fn row_width(blocks: int, variants: int) -> int {
    blocks / variants
}

/// `bits` once the bits `items` below `width` of the row starting at `start`
/// are enabled.
pub open spec fn with_row(bits: Seq<bool>, start: int, width: int, items: Seq<u32>) -> Seq<bool> {
    Seq::new(
        bits.len(),
        |k: int|
            bits[k] || exists|j: int|
                0 <= j < items.len() && items[j] < width && k == start + #[trigger] items[j],
    )
}

/// The window of the row read for the range `lo..hi`: it ends at `hi` or
/// `width` bits after `lo`, whichever comes first, and starts at `lo` or at
/// its end, whichever comes first.
pub open spec fn row_window(width: int, lo: int, hi: int) -> (int, int) {
    let end = if hi < lo + width {
        hi
    } else {
        lo + width
    };
    (if lo < end {
        lo
    } else {
        end
    }, end)
}

/// The bits enabled in the window of row `row` for `lo..hi`, in ascending
/// order, counted from the start of the row.
pub open spec fn row_items(bits: Seq<bool>, width: int, row: int, lo: int, hi: int) -> Seq<int> {
    let (b, e) = row_window(width, lo, hi);
    ones_seq(bits, row * width + b, row * width + e).map_values(|i: int| i - row * width)
}

/// Reading row `row` for `lo..hi` stays within `u32` and within the `len`
/// bits of the matrix.
pub open spec fn row_ok(len: int, width: int, row: int, lo: int, hi: int) -> bool {
    &&& lo + width <= u32::MAX
    &&& row * width + row_window(width, lo, hi).1 <= u32::MAX
    &&& row * width + row_window(width, lo, hi).1 <= len
}

/// The first bit found for `lo..hi` by the rows of the mask `rows` from row
/// `r` on, in ascending order: the first enabled bit of the first row that
/// has one.
pub open spec fn first_in_rows(bits: Seq<bool>, width: int, rows: u64, r: int, lo: int, hi: int) -> Option<
    int,
>
    decreases 64 - r,
{
    if r >= 64 {
        None
    } else if has_field(rows, r as u32) && row_items(bits, width, r, lo, hi).len() > 0 {
        Some(row_items(bits, width, r, lo, hi)[0])
    } else {
        first_in_rows(bits, width, rows, r + 1, lo, hi)
    }
}

/// The rows looked at to find the first bit for `lo..hi` (see
/// [`first_in_rows`]) are all read within bounds.
pub open spec fn first_in_rows_ok(
    len: int,
    bits: Seq<bool>,
    width: int,
    rows: u64,
    r: int,
    lo: int,
    hi: int,
) -> bool
    decreases 64 - r,
{
    if r >= 64 {
        true
    } else if has_field(rows, r as u32) {
        row_ok(len, width, r, lo, hi) && (row_items(bits, width, r, lo, hi).len() > 0
            || first_in_rows_ok(len, bits, width, rows, r + 1, lo, hi))
    } else {
        first_in_rows_ok(len, bits, width, rows, r + 1, lo, hi)
    }
}

/// The bits found for `lo..hi`, then `lo + 1..hi`, and on, until none is
/// found or the range is empty (see [`first_in_rows`]).
pub open spec fn rows_items(bits: Seq<bool>, width: int, rows: u64, lo: int, hi: int) -> Seq<int>
    decreases hi - lo,
{
    if lo >= hi {
        Seq::empty()
    } else {
        match first_in_rows(bits, width, rows, 0, lo, hi) {
            None => Seq::empty(),
            Some(x) => seq![x] + rows_items(bits, width, rows, lo + 1, hi),
        }
    }
}

/// Every row looked at by [`rows_items`] is read within bounds.
pub open spec fn rows_items_ok(len: int, bits: Seq<bool>, width: int, rows: u64, lo: int, hi: int) -> bool
    decreases hi - lo,
{
    lo >= hi || (first_in_rows_ok(len, bits, width, rows, 0, lo, hi) && (first_in_rows(
        bits,
        width,
        rows,
        0,
        lo,
        hi,
    ) is None || rows_items_ok(len, bits, width, rows, lo + 1, hi)))
}

impl EnumBitMatrix {
    /// The bits of the matrix, row after row.
    pub closed spec fn bits(&self) -> Seq<bool> {
        self.bits@
    }

    /// The number of 32-bit blocks the bits are stored in.
    pub closed spec fn blocks(&self) -> int {
        self.bits.0@.len() as int
    }

    /// The number of rows.
    pub closed spec fn variants(&self) -> u32 {
        self.variants
    }

    /// The blocks fit in a `u32`, as many bits as 32 per block.
    pub closed spec fn wf(&self) -> bool {
        &&& self.bits.0@.len() <= u32::MAX
        &&& self.bits.wf()
    }

    /// What a well-formed matrix keeps.
    pub proof fn lemma_wf(&self)
        requires
            self.wf(),
        ensures
            self.blocks() <= u32::MAX,
            self.bits().len() == 32 * self.blocks(),
    {
    }

    /// A matrix of `variants` rows, no bit enabled, in as many blocks as
    /// `width * variants` bytes take; `width * variants` fits in a `u32`, the
    /// bits in a `usize`.
    pub fn new(width: u32, variants: u32) -> (r: Self)
        requires
            width * variants <= u32::MAX,
            (width * variants + 3) / 4 * 32 <= usize::MAX,
        ensures
            r.wf(),
            r.variants() == variants,
            r.blocks() == (width * variants + 3) / 4,
            forall|k: int| 0 <= k < r.bits().len() ==> !#[trigger] r.bits()[k],
    {
        let len = (width * variants) as usize;
        let data = vec![0u32; div_ceil(len, 4)];
        let r = EnumBitMatrix { bits: Bitset(data), variants };
        assert(r.bits.0@.len() == (width * variants + 3) / 4);
        assert forall|k: int| 0 <= k < r.bits().len() implies !#[trigger] r.bits()[k] by {
            lemma_zero_bits((k % 32) as u32);
        }
        r
    }

    /// The width in bits of the rows: the number of blocks over the number
    /// of rows.
    pub fn bit_width(&self) -> (r: u32)
        requires
            self.wf(),
            self.variants() > 0,
        ensures
            r == row_width(self.blocks(), self.variants() as int),
    {
        (self.bits.0.len() as u32) / self.variants
    }

    /// Enables the bits `items` of row `row` that are below
    /// [`EnumBitMatrix::bit_width`]; the others are ignored.
    pub fn set_row(&mut self, row: u32, items: &[u32])
        requires
            old(self).wf(),
            row < old(self).variants(),
        ensures
            final(self).wf(),
            final(self).variants() == old(self).variants(),
            final(self).blocks() == old(self).blocks(),
            final(self).bits() == with_row(
                old(self).bits(),
                row * row_width(old(self).blocks(), old(self).variants() as int),
                row_width(old(self).blocks(), old(self).variants() as int),
                items@,
            ),
    {
        let width = self.bit_width();
        let ghost blocks = self.blocks();
        let ghost bits0 = self.bits();
        let ghost variants = self.variants as int;
        proof {
            vstd::arithmetic::div_mod::lemma_fundamental_div_mod(blocks, variants);
            vstd::arithmetic::div_mod::lemma_mod_pos_bound(blocks, variants);
        }
        assert((row + 1) * width <= blocks) by (nonlinear_arith)
            requires
                blocks == variants * (width as int) + blocks % variants,
                blocks % variants >= 0,
                row + 1 <= variants,
                width >= 0,
        ;
        assert(row * width + width == (row + 1) * width) by (nonlinear_arith);
        let start = row * width;
        let mut j: usize = 0;
        assert(with_row(bits0, start as int, width as int, items@.take(0)) =~= bits0);
        while j < items.len()
            invariant
                self.wf(),
                self.blocks() == blocks,
                self.bits().len() == 32 * blocks,
                self.variants() == old(self).variants(),
                width == row_width(blocks, self.variants() as int),
                start == row * width,
                start + width <= blocks,
                j <= items@.len(),
                self.bits() == with_row(bits0, start as int, width as int, items@.take(j as int)),
            decreases items@.len() - j,
        {
            let i = items[j];
            let ghost before = self.bits();
            if i < width {
                let r = self.bits.enable_bit((i + start) as usize);
                assert(r is Some);
            }
            proof {
                let taken = items@.take(j + 1);
                assert(taken.take(j as int) =~= items@.take(j as int));
                assert forall|k: int| 0 <= k < self.bits().len() implies #[trigger] self.bits()[k]
                    == with_row(bits0, start as int, width as int, taken)[k] by {
                    let prev = with_row(bits0, start as int, width as int, items@.take(j as int));
                    assert(before[k] == prev[k]);
                    if exists|x: int|
                        0 <= x < taken.len() && taken[x] < width && k == start + #[trigger] taken[x] {
                        let x = choose|x: int|
                            0 <= x < taken.len() && taken[x] < width && k == start + #[trigger] taken[x];
                        if x < j {
                            assert(items@.take(j as int)[x] == taken[x]);
                        }
                    }
                    if exists|x: int|
                        0 <= x < items@.take(j as int).len() && items@.take(j as int)[x] < width && k
                            == start + #[trigger] items@.take(j as int)[x] {
                        let x = choose|x: int|
                            0 <= x < items@.take(j as int).len() && items@.take(j as int)[x] < width
                                && k == start + #[trigger] items@.take(j as int)[x];
                        assert(taken[x] == items@.take(j as int)[x]);
                    }
                    if i < width && k == start + i {
                        assert(taken[j as int] == i);
                    }
                }
                assert(self.bits() =~= with_row(bits0, start as int, width as int, taken));
            }
            j = j + 1;
        }
        assert(items@.take(items@.len() as int) =~= items@);
    }

    /// The bits enabled in the window of row `row` for `lo..hi`, as
    /// positions in the matrix, and where the row starts.
    fn row_ones(&self, row: u32, lo: u32, hi: u32) -> (r: (crate::bitset::Ones<'_>, u32))
        requires
            self.wf(),
            0 < self.variants(),
            row < self.variants(),
            row_ok(
                self.bits().len() as int,
                row_width(self.blocks(), self.variants() as int),
                row as int,
                lo as int,
                hi as int,
            ),
        ensures
            r.0.wf(),
            ({
                let width = row_width(self.blocks(), self.variants() as int);
                let (b, e) = row_window(width, lo as int, hi as int);
                &&& r.1 == row * width
                &&& r.0@ == ones_seq(self.bits(), row * width + b, row * width + e)
            }),
    {
        let width = self.bit_width();
        let end = if hi < lo + width {
            hi
        } else {
            lo + width
        };
        let begin = if lo < end {
            lo
        } else {
            end
        };
        let ghost blocks = self.blocks();
        let ghost variants = self.variants as int;
        proof {
            vstd::arithmetic::div_mod::lemma_fundamental_div_mod(blocks, variants);
            vstd::arithmetic::div_mod::lemma_mod_pos_bound(blocks, variants);
        }
        assert(row * width <= blocks) by (nonlinear_arith)
            requires
                blocks == variants * (width as int) + blocks % variants,
                blocks % variants >= 0,
                row + 1 <= variants,
                width >= 0,
        ;
        let start = row * width;
        let ones = self.bits.ones_in_range((start + begin) as usize..(start + end) as usize);
        (ones, start)
    }

    /// The bits enabled in row `row` for the range `range`, counted from the
    /// start of the row, in ascending order. The window read ends at
    /// `range.end` or [`EnumBitMatrix::bit_width`] bits after `range.start`,
    /// whichever comes first.
    pub fn row(&self, row: u32, range: Range<u32>) -> (r: Vec<u32>)
        requires
            self.wf(),
            0 < self.variants(),
            row < self.variants(),
            row_ok(
                self.bits().len() as int,
                row_width(self.blocks(), self.variants() as int),
                row as int,
                range.start as int,
                range.end as int,
            ),
        ensures
            r@.len() == row_items(
                self.bits(),
                row_width(self.blocks(), self.variants() as int),
                row as int,
                range.start as int,
                range.end as int,
            ).len(),
            forall|k: int|
                0 <= k < r@.len() ==> #[trigger] r@[k] as int == row_items(
                    self.bits(),
                    row_width(self.blocks(), self.variants() as int),
                    row as int,
                    range.start as int,
                    range.end as int,
                )[k],
    {
        let ghost width = row_width(self.blocks(), self.variants() as int);
        let ghost window = row_window(width, range.start as int, range.end as int);
        let (mut ones, start) = self.row_ones(row, range.start, range.end);
        let ghost all = ones@;
        assert(window.0 >= 0);
        proof {
            crate::bitset::lemma_ones_seq(self.bits(), start + window.0, start + window.1);
        }
        let found = ones.to_vec();
        let mut out: Vec<u32> = Vec::new();
        let mut k: usize = 0;
        while k < found.len()
            invariant
                k <= found@.len(),
                found@.len() == all.len(),
                forall|x: int| 0 <= x < found@.len() ==> #[trigger] found@[x] as int == all[x],
                window.0 >= 0,
                forall|x: int| 0 <= x < all.len() ==> start + window.0 <= #[trigger] all[x] < start + window.1,
                out@.len() == k,
                forall|x: int| 0 <= x < k ==> #[trigger] out@[x] as int == all[x] - start,
            decreases found@.len() - k,
        {
            assert(all[k as int] >= start);
            out.push(found[k] - start);
            k = k + 1;
        }
        out
    }

    /// The bits found in the rows of the mask `rows` for the range `range`,
    /// then from one bit further, and on: for each start, the first enabled
    /// bit of the first row, in ascending order, that has one in its window
    /// (see [`EnumBitMatrix::row`]); the search stops at the first start for
    /// which no row has one, or at the end of the range.
    pub fn rows(&self, rows: u64, range: Range<u32>) -> (r: Vec<u32>)
        requires
            self.wf(),
            0 < self.variants(),
            forall|x: u32| #[trigger] has_field(rows, x) ==> x < self.variants(),
            rows_items_ok(
                self.bits().len() as int,
                self.bits(),
                row_width(self.blocks(), self.variants() as int),
                rows,
                range.start as int,
                range.end as int,
            ),
        ensures
            r@.len() == rows_items(
                self.bits(),
                row_width(self.blocks(), self.variants() as int),
                rows,
                range.start as int,
                range.end as int,
            ).len(),
            forall|k: int|
                0 <= k < r@.len() ==> #[trigger] r@[k] as int == rows_items(
                    self.bits(),
                    row_width(self.blocks(), self.variants() as int),
                    rows,
                    range.start as int,
                    range.end as int,
                )[k],
    {
        let ghost width = row_width(self.blocks(), self.variants() as int);
        let ghost bits = self.bits();
        let ghost len = bits.len() as int;
        let ghost target = rows_items(bits, width, rows, range.start as int, range.end as int);
        let mut out: Vec<u32> = Vec::new();
        let mut lo = range.start;
        while lo < range.end
            invariant
                self.wf(),
                0 < self.variants(),
                width == row_width(self.blocks(), self.variants() as int),
                bits == self.bits(),
                len == bits.len(),
                forall|x: u32| #[trigger] has_field(rows, x) ==> x < self.variants(),
                range.start <= lo,
                target == rows_items(bits, width, rows, range.start as int, range.end as int),
                rows_items_ok(len, bits, width, rows, lo as int, range.end as int),
                out@.len() + rows_items(bits, width, rows, lo as int, range.end as int).len()
                    == target.len(),
                forall|x: int| 0 <= x < out@.len() ==> #[trigger] out@[x] as int == target[x],
                forall|x: int|
                    0 <= x < rows_items(bits, width, rows, lo as int, range.end as int).len()
                        ==> #[trigger] rows_items(bits, width, rows, lo as int, range.end as int)[x]
                        == target[out@.len() + x],
            decreases range.end - lo,
        {
            let mut r: u32 = 0;
            let mut found: Option<u32> = None;
            while r < 64 && found.is_none()
                invariant
                    self.wf(),
                    0 < self.variants(),
                    width == row_width(self.blocks(), self.variants() as int),
                    bits == self.bits(),
                    len == bits.len(),
                    forall|x: u32| #[trigger] has_field(rows, x) ==> x < self.variants(),
                    lo < range.end,
                    r <= 64,
                    found is None ==> first_in_rows(bits, width, rows, 0, lo as int, range.end as int)
                        == first_in_rows(bits, width, rows, r as int, lo as int, range.end as int),
                    found is None ==> first_in_rows_ok(len, bits, width, rows, r as int, lo as int, range.end as int),
                    found matches Some(x) ==> first_in_rows(bits, width, rows, 0, lo as int, range.end as int)
                        == Some(x as int),
                decreases 64 - r,
            {
                if contains_field(rows, r) {
                    let (mut ones, start) = self.row_ones(r, lo, range.end);
                    let ghost window = row_window(width, lo as int, range.end as int);
                    proof {
                        crate::bitset::lemma_ones_seq(bits, start + window.0, start + window.1);
                    }
                    let ghost all = ones@;
                    assert(window.0 >= 0);
                    let first = ones.next();
                    match first {
                        Some(i) => {
                            assert(all[0] >= start);
                            assert(row_items(bits, width, r as int, lo as int, range.end as int)[0] == all[0] - start);
                            found = Some(i - start);
                        },
                        None => {
                            assert(row_items(bits, width, r as int, lo as int, range.end as int).len() == 0);
                        },
                    }
                }
                r = r + 1;
            }
            match found {
                None => {
                    assert(first_in_rows(bits, width, rows, 64, lo as int, range.end as int) is None);
                    assert(rows_items(bits, width, rows, lo as int, range.end as int).len() == 0);
                    return out;
                },
                Some(x) => {
                    let ghost rest = rows_items(bits, width, rows, lo as int + 1, range.end as int);
                    assert(rows_items(bits, width, rows, lo as int, range.end as int) == seq![x as int] + rest);
                    let ghost before = out@;
                    assert(rows_items(bits, width, rows, lo as int, range.end as int)[0] == x as int);
                    out.push(x);
                    assert(target[before.len() as int] == x as int);
                    assert forall|y: int| 0 <= y < rest.len() implies #[trigger] rest[y] == target[out@.len() + y] by {
                        assert((seq![x as int] + rest)[y + 1] == rest[y]);
                    }
                },
            }
            lo = lo + 1;
        }
        out
    }
}

} // verus!
