//! A bit matrix similar to [`BitMatrix`](crate::bitmatrix::BitMatrix),
//! but with rows of variable length like [`JaggedVec`](crate::jagged_vec::JaggedVec).
use vstd::prelude::*;

use crate::bitset::{lemma_ones_seq, lemma_ones_seq_shift, ones_seq, Bitset};

verus! {

/// Where row `y` starts: the end of the previous row, `0` for the first one.
pub open spec fn row_start(ends: Seq<u32>, y: int) -> int {
    if y <= 0 {
        0
    } else {
        ends[y - 1] as int
    }
}

/// Where the last row ends, `0` if there is no row.
pub open spec fn last_end(ends: Seq<u32>) -> int {
    if ends.len() == 0 {
        0
    } else {
        ends.last() as int
    }
}

/// `ends` never decreases.
pub open spec fn ends_sorted(ends: Seq<u32>) -> bool {
    forall|a: int, b: int| 0 <= a <= b < ends.len() ==> ends[a] <= ends[b]
}

/// The rows stored in `bits`, row `y` spanning `row_start(ends, y)..ends[y]`.
pub open spec fn rows_of(ends: Seq<u32>, bits: Seq<bool>) -> Seq<Seq<bool>> {
    Seq::new(
        ends.len(),
        |y: int|
            Seq::new(
                (ends[y] - row_start(ends, y)) as nat,
                |j: int| bits[row_start(ends, y) + j],
            ),
    )
}

/// The width of a row built from the enabled positions `row`: one past the
/// largest of them, `0` when there is none.
pub open spec fn row_width(row: Seq<u32>) -> nat
    decreases row.len(),
{
    if row.len() == 0 {
        0
    } else {
        let rest = row_width(row.drop_last());
        if row.last() + 1 > rest {
            (row.last() + 1) as nat
        } else {
            rest
        }
    }
}

/// The row built from the enabled positions `row`.
pub open spec fn row_of(row: Seq<u32>) -> Seq<bool> {
    Seq::new(row_width(row), |j: int| row.contains(j as u32))
}

proof fn lemma_row_width(row: Seq<u32>)
    ensures
        forall|k: int| 0 <= k < row.len() ==> #[trigger] row[k] < row_width(row),
        row_width(row) <= u32::MAX + 1,
    decreases row.len(),
{
    if row.len() > 0 {
        lemma_row_width(row.drop_last());
        assert forall|k: int| 0 <= k < row.len() implies #[trigger] row[k] < row_width(row) by {
            if k < row.len() - 1 {
                assert(row.drop_last()[k] == row[k]);
            }
        }
    }
}

/// The length of the longest of `rows`, `0` when there is none.
pub open spec fn max_len(rows: Seq<Seq<bool>>) -> nat
    decreases rows.len(),
{
    if rows.len() == 0 {
        0
    } else {
        let rest = max_len(rows.drop_last());
        if rows.last().len() > rest {
            rows.last().len()
        } else {
            rest
        }
    }
}

/// `max_len` is the length of one of the rows, and no row is longer.
pub proof fn lemma_max_len(rows: Seq<Seq<bool>>)
    ensures
        forall|y: int| 0 <= y < rows.len() ==> #[trigger] rows[y].len() <= max_len(rows),
        rows.len() > 0 ==> exists|y: int| 0 <= y < rows.len() && #[trigger] rows[y].len() == max_len(rows),
    decreases rows.len(),
{
    if rows.len() > 0 {
        let rest = rows.drop_last();
        lemma_max_len(rest);
        assert forall|y: int| 0 <= y < rows.len() implies #[trigger] rows[y].len() <= max_len(rows) by {
            if y < rows.len() - 1 {
                assert(rest[y] == rows[y]);
            }
        }
        if rows.last().len() <= max_len(rest) && rest.len() > 0 {
            let y = choose|y: int| 0 <= y < rest.len() && #[trigger] rest[y].len() == max_len(rest);
            assert(rows[y] == rest[y]);
        }
        if rest.len() == 0 {
            assert(rows[rows.len() - 1].len() == max_len(rows));
        }
    }
}

/// A bit matrix similar to [`BitMatrix`](crate::bitmatrix::BitMatrix),
/// but with rows of variable length.
///
/// Use [`Builder`] to create a [`JaggedBitset`].
#[derive(Debug)]
pub struct JaggedBitset {
    ends: Vec<u32>,
    bits: Bitset,
}

impl View for JaggedBitset {
    type V = Seq<Seq<bool>>;

    closed spec fn view(&self) -> Seq<Seq<bool>> {
        rows_of(self.ends@, self.bits@)
    }
}

impl JaggedBitset {
    #[verifier::type_invariant]
    closed spec fn inv(self) -> bool {
        &&& ends_sorted(self.ends@)
        &&& self.bits.wf()
        &&& last_end(self.ends@) <= self.bits@.len()
    }

    proof fn lemma_rows(&self, y: int)
        requires
            0 <= y < self.ends@.len(),
            ends_sorted(self.ends@),
            last_end(self.ends@) <= self.bits@.len(),
        ensures
            0 <= row_start(self.ends@, y) <= self.ends@[y] <= self.bits@.len(),
            self@[y].len() == self.ends@[y] - row_start(self.ends@, y),
    {
        assert(self.ends@[y] <= self.ends@.last());
        if y > 0 {
            assert(self.ends@[y - 1] <= self.ends@[y]);
        }
    }

    /// True if bits at column `x` and row `y` is enabled. False if not, or
    /// if `(x, y)` is not within the array.
    #[inline]
    pub fn bit(&self, x: usize, y: usize) -> (r: bool)
        ensures
            r == (y < self@.len() && x < self@[y as int].len() && self@[y as int][x as int]),
    {
        proof {
            use_type_invariant(self);
        }
        if y >= self.height() {
            return false;
        }
        proof {
            self.lemma_rows(y as int);
        }
        let start = if y == 0 {
            0
        } else {
            self.ends[y - 1] as usize
        };
        let end = self.ends[y] as usize;
        if x >= end - start {
            return false;
        }
        self.bits.bit(start + x)
    }

    /// Return the width of the longest row.
    ///
    /// `0` if `height == 0`.
    pub fn max_width(&self) -> (r: u32)
        ensures
            r == max_len(self@),
    {
        let mut max: u32 = 0;
        let mut i: usize = 0;
        while i < self.height()
            invariant
                i <= self@.len(),
                max == max_len(self@.take(i as int)),
            decreases self@.len() - i,
        {
            let w = self.width(i);
            proof {
                assert(self@.take(i + 1).drop_last() =~= self@.take(i as int));
            }
            if w > max {
                max = w;
            }
            i = i + 1;
        }
        proof {
            assert(self@.take(i as int) =~= self@);
        }
        max
    }

    /// Return how many rows this jagged bitset has.
    #[inline]
    pub fn height(&self) -> (r: usize)
        ensures
            r == self@.len(),
    {
        self.ends.len()
    }

    /// Return the column count of `index` row.
    ///
    /// # Panics
    /// If `index` is greater or equal to the [`height`](Self::height).
    #[inline]
    pub fn width(&self, index: usize) -> (r: u32)
        requires
            index < self@.len(),
        ensures
            r == self@[index as int].len(),
    {
        match self.get_width(index) {
            Some(w) => w,
            None => 0,
        }
    }

    /// Return the column count of `index` row.
    /// `None` if `index` is greater or equal to the [`height`](Self::height).
    #[inline]
    pub fn get_width(&self, index: usize) -> (r: Option<u32>)
        ensures
            r is Some <==> index < self@.len(),
            r matches Some(w) ==> w == self@[index as int].len(),
    {
        proof {
            use_type_invariant(self);
        }
        if index >= self.height() {
            return None;
        }
        proof {
            self.lemma_rows(index as int);
        }
        let start = if index == 0 {
            0
        } else {
            self.ends[index - 1]
        };
        let end = self.ends[index];
        Some(end - start)
    }

    /// The enabled bits in given `index` row, in ascending order.
    ///
    /// # Panics
    /// If `index` is greater or equal to the [`height`](Self::height).
    pub fn row(&self, index: usize) -> (r: Vec<u32>)
        requires
            index < self@.len(),
        ensures
            r@.len() == ones_seq(self@[index as int], 0, self@[index as int].len() as int).len(),
            forall|k: int|
                0 <= k < r@.len() ==> #[trigger] r@[k] as int == ones_seq(
                    self@[index as int],
                    0,
                    self@[index as int].len() as int,
                )[k],
    {
        proof {
            use_type_invariant(self);
            self.lemma_rows(index as int);
        }
        let start = if index == 0 {
            0
        } else {
            self.ends[index - 1]
        };
        let end = self.ends[index];
        let ghost window = self@[index as int];
        proof {
            lemma_ones_seq_shift(self.bits@, window, start as int);
            lemma_ones_seq(self.bits@, start as int, end as int);
        }
        let mut out: Vec<u32> = Vec::new();
        if start == end {
            return out;
        }
        let mut ones = self.bits.ones_in_range(start as usize..end as usize);
        let found = ones.to_vec();
        let ghost full = ones_seq(self.bits@, start as int, end as int);
        let mut i: usize = 0;
        while i < found.len()
            invariant
                i <= found@.len(),
                found@.len() == full.len(),
                forall|k: int| 0 <= k < found@.len() ==> #[trigger] found@[k] as int == full[k],
                forall|k: int| 0 <= k < full.len() ==> start <= #[trigger] full[k] < end,
                out@.len() == i,
                forall|k: int| 0 <= k < i ==> #[trigger] out@[k] + start == found@[k],
            decreases found@.len() - i,
        {
            let v = found[i];
            out.push(v - start);
            i = i + 1;
        }
        out
    }

    /// Return a struct that, when rendered with [`BrailleDisplay::render`],
    /// displays the jagged bitset with rows and columns transposed
    /// (ie: rotated 90º clockwise and mirrored) using unicode braille characters.
    pub fn braille_trans_display(&self) -> (r: BrailleDisplay<'_>)
        ensures
            r.bitset == self,
            r.transposed,
    {
        BrailleDisplay { bitset: self, transposed: true }
    }

    /// Return a struct that, when rendered with [`BrailleDisplay::render`],
    /// displays the jagged bitset using unicode braille characters([wikipedia]).
    ///
    /// [wikipedia]: https://en.wikipedia.org/wiki/Braille_Patterns
    pub fn braille_display(&self) -> (r: BrailleDisplay<'_>)
        ensures
            r.bitset == self,
            !r.transposed,
    {
        BrailleDisplay { bitset: self, transposed: false }
    }
}

/// Nice printing for [`JaggedBitset`], see [`JaggedBitset::braille_display`]
/// and [`JaggedBitset::braille_trans_display`].
#[derive(Clone, Copy)]
pub struct BrailleDisplay<'a> {
    pub bitset: &'a JaggedBitset,
    /// Show rows as columns and columns as rows.
    pub transposed: bool,
}

/// Helps create [`JaggedBitset`] with [`Builder::build`].
///
/// [`JaggedBitset`] is immutable with a fixed capacity, so it is necessary
/// to pass through a builder ot create one.
#[derive(Debug, Default)]
pub struct Builder {
    ends: Vec<u32>,
    bits: Bitset,
}

impl View for Builder {
    type V = Seq<Seq<bool>>;

    closed spec fn view(&self) -> Seq<Seq<bool>> {
        rows_of(self.ends@, self.bits@)
    }
}

impl Builder {
    /// The rows are laid out one after the other, with nothing enabled past
    /// the last one.
    pub closed spec fn wf(&self) -> bool {
        &&& ends_sorted(self.ends@)
        &&& self.bits.wf()
        &&& last_end(self.ends@) <= self.bits@.len()
        &&& self.bits@.len() <= 8 * last_end(self.ends@) + 32
        &&& forall|i: int| last_end(self.ends@) <= i < self.bits@.len() ==> !#[trigger] self.bits@[i]
    }

    /// Where the next row will start.
    pub closed spec fn next_start(&self) -> int {
        last_end(self.ends@)
    }

    /// Initialize a [`Builder`].
    pub fn new() -> (r: Self)
        ensures
            r.wf(),
            r@ == Seq::<Seq<bool>>::empty(),
            r.next_start() == 0,
    {
        let r = Builder { ends: Vec::new(), bits: Bitset(Vec::new()) };
        proof {
            assert(r@ =~= Seq::<Seq<bool>>::empty());
        }
        r
    }

    /// Initialize a [`Builder`] with capacity rows.
    pub fn with_capacity(cap: usize) -> (r: Self)
        ensures
            r.wf(),
            r@ == Seq::<Seq<bool>>::empty(),
            r.next_start() == 0,
    {
        let r = Builder { ends: Vec::with_capacity(cap), bits: Bitset(Vec::new()) };
        proof {
            assert(r@ =~= Seq::<Seq<bool>>::empty());
        }
        r
    }

    /// Create the immutable [`JaggedBitset`], consuming this constructor.
    pub fn build(self) -> (r: JaggedBitset)
        requires
            self.wf(),
        ensures
            r@ == self@,
    {
        JaggedBitset { ends: self.ends, bits: self.bits }
    }

    /// Add a single row to this [`Builder`], returning it.
    pub fn with_row(self, row: &[u32]) -> (r: Self)
        requires
            self.wf(),
            forall|k: int|
                0 <= k < row@.len() ==> self.next_start() + #[trigger] row@[k] < u32::MAX && 8 * (
                self.next_start() + row@[k]) + 64 <= usize::MAX,
        ensures
            r.wf(),
            r@ == self@.push(row_of(row@)),
            r.next_start() == self.next_start() + row_width(row@),
    {
        let mut this = self;
        this.add_row(row);
        this
    }

    /// Add a single row to this [`Builder`],
    /// each item of `row` is a bit to enable in this row.
    pub fn add_row(&mut self, row: &[u32])
        requires
            old(self).wf(),
            forall|k: int|
                0 <= k < row@.len() ==> old(self).next_start() + #[trigger] row@[k] < u32::MAX && 8
                    * (old(self).next_start() + row@[k]) + 64 <= usize::MAX,
        ensures
            final(self).wf(),
            final(self)@ == old(self)@.push(row_of(row@)),
            final(self).next_start() == old(self).next_start() + row_width(row@),
    {
        let start: u32 = match self.ends.last() {
            Some(i) => *i,
            None => 0,
        };
        let ghost old_bits = self.bits@;
        let ghost old_ends = self.ends@;
        let mut row_len: u32 = 0;
        let mut n: usize = 0;
        proof {
            assert(row@.take(0) =~= Seq::<u32>::empty());
        }
        while n < row.len()
            invariant
                n <= row@.len(),
                start == last_end(old_ends),
                self.ends@ == old_ends,
                self.bits.wf(),
                forall|k: int|
                    0 <= k < row@.len() ==> start + #[trigger] row@[k] < u32::MAX && 8 * (start
                        + row@[k]) + 64 <= usize::MAX,
                row_len == row_width(row@.take(n as int)),
                start + row_len <= u32::MAX,
                start + row_len <= self.bits@.len(),
                self.bits@.len() <= 8 * (start + row_len) + 32 || self.bits@.len() == old_bits.len(),
                old_bits.len() <= 8 * start + 32,
                self.bits@.len() >= old_bits.len(),
                start <= old_bits.len(),
                forall|i: int| 0 <= i < start ==> #[trigger] self.bits@[i] == old_bits[i],
                forall|i: int|
                    start <= i < self.bits@.len() ==> #[trigger] self.bits@[i] == (exists|k: int|
                        0 <= k < n && row@[k] + start == i),
            decreases row@.len() - n,
        {
            let bit = row[n];
            let bit_in_array = (bit + start) as usize;
            let ghost before = self.bits@;
            let len = self.bits.bit_len();
            if len <= bit_in_array {
                let extra_blocks = (bit_in_array - len) / 4 + 1;
                let blocks = self.bits.0.len();
                proof {
                    let d = bit_in_array - len;
                    assert(d / 4 * 4 >= d - 3);
                    assert((blocks + extra_blocks) * 32 == len + 32 * extra_blocks);
                    assert((blocks + extra_blocks) * 32 > bit_in_array);
                    assert((blocks + extra_blocks) * 32 <= 8 * bit_in_array + 32);
                }
                self.bits.0.resize(blocks + extra_blocks, 0);
                proof {
                    assert forall|i: int| 0 <= i < self.bits@.len() implies #[trigger] self.bits@[i]
                        == (i < before.len() && before[i]) by {
                        if i >= before.len() {
                            assert(self.bits.0@[i / 32] == 0);
                            crate::bits::lemma_zero_bits((i % 32) as u32);
                        }
                    }
                }
            }
            let ghost mid = self.bits@;
            assert(bit_in_array < mid.len());
            let _ = self.bits.enable_bit(bit_in_array);
            proof {
                lemma_row_width(row@.take(n as int));
                assert forall|k: int| 0 <= k < n implies #[trigger] row@[k] < row_len by {
                    assert(row@.take(n as int)[k] == row@[k]);
                }
                let s0 = row@.take(n as int);
                let s1 = row@.take(n + 1);
                assert(s1.drop_last() =~= s0);
                assert forall|i: int| start <= i < self.bits@.len() implies #[trigger] self.bits@[i]
                    == (exists|k: int| 0 <= k < n + 1 && row@[k] + start == i) by {
                    if i == bit_in_array {
                        assert(row@[n as int] + start == i);
                    } else {
                        if exists|k: int| 0 <= k < n + 1 && row@[k] + start == i {
                            let k = choose|k: int| 0 <= k < n + 1 && row@[k] + start == i;
                            assert(k < n);
                        }
                        if i >= before.len() {
                            assert(!mid[i]);
                            if exists|k: int| 0 <= k < n && row@[k] + start == i {
                                let k = choose|k: int| 0 <= k < n && row@[k] + start == i;
                                assert(row@[k] < row_len);
                            }
                        } else {
                            assert(mid[i] == before[i]);
                        }
                    }
                }
            }
            if bit + 1 > row_len {
                row_len = bit + 1;
            }
            n = n + 1;
        }
        self.ends.push(start + row_len);
        proof {
            assert(row@.take(row@.len() as int) =~= row@);
            lemma_row_width(row@);
            let ne = self.ends@;
            assert(ends_sorted(ne)) by {
                assert forall|a: int, b: int| 0 <= a <= b < ne.len() implies ne[a] <= ne[b] by {
                    if b == ne.len() - 1 && a < b {
                        assert(old_ends[a] <= old_ends.last());
                    }
                }
            }
            assert forall|i: int| last_end(ne) <= i < self.bits@.len() implies !#[trigger] self.bits@[i] by {
                if exists|k: int| 0 <= k < row@.len() && row@[k] + start == i {
                    let k = choose|k: int| 0 <= k < row@.len() && row@[k] + start == i;
                    assert(row@[k] < row_width(row@));
                }
            }
            let nr = rows_of(ne, self.bits@);
            let want = old(self)@.push(row_of(row@));
            assert forall|y: int| 0 <= y < old_ends.len() implies #[trigger] nr[y] =~= want[y] by {
                assert(old_ends[y] <= last_end(old_ends));
                if y > 0 {
                    assert(old_ends[y - 1] <= old_ends[y]);
                }
                assert(ne[y] == old_ends[y]);
                assert(row_start(ne, y) == row_start(old_ends, y));
            }
            let y = old_ends.len() as int;
            assert(row_start(ne, y) == start);
            assert forall|j: int| 0 <= j < row_width(row@) implies #[trigger] nr[y][j] == want[y][j] by {
                if row@.contains(j as u32) {
                    let k = choose|k: int| 0 <= k < row@.len() && row@[k] == j as u32;
                    assert(row@[k] + start == start + j);
                }
                if exists|k: int| 0 <= k < row@.len() && row@[k] + start == start + j {
                    let k = choose|k: int| 0 <= k < row@.len() && row@[k] + start == start + j;
                    assert(row@[k] == j as u32);
                }
            }
            assert(nr[y] =~= want[y]);
            assert(nr =~= want);
        }
    }
}

/// `1` for `true`, `0` for `false`.
pub open spec fn bit01(b: bool) -> int {
    if b {
        1
    } else {
        0
    }
}

/// The code of the braille character showing the 2×4 cells of `cell` whose
/// top left cell is at column `2x` and row `4y`.
pub open spec fn braille_code(cell: spec_fn(int, int) -> bool, x: int, y: int) -> u32 {
    (0x2800 + bit01(cell(2 * x, 4 * y)) + 8 * bit01(cell(2 * x + 1, 4 * y)) + 2 * bit01(
        cell(2 * x, 4 * y + 1),
    ) + 16 * bit01(cell(2 * x + 1, 4 * y + 1)) + 4 * bit01(cell(2 * x, 4 * y + 2)) + 32 * bit01(
        cell(2 * x + 1, 4 * y + 2),
    ) + 64 * bit01(cell(2 * x, 4 * y + 3)) + 128 * bit01(cell(2 * x + 1, 4 * y + 3))) as u32
}

/// The character codes of braille line `y`: a left bracket, one character
/// per pair of columns, and a right bracket.
pub open spec fn braille_line(cell: spec_fn(int, int) -> bool, width: int, y: int) -> Seq<u32> {
    seq![0x1FB74u32] + Seq::new(((width + 1) / 2) as nat, |x: int| braille_code(cell, x, y))
        + seq![0x1FB70u32]
}

/// The character codes of the first `n` braille lines, separated by newlines.
pub open spec fn braille_lines(cell: spec_fn(int, int) -> bool, width: int, n: nat) -> Seq<u32>
    decreases n,
{
    if n == 0 {
        Seq::empty()
    } else {
        braille_lines(cell, width, (n - 1) as nat) + (if n > 1 {
            seq![10u32]
        } else {
            Seq::empty()
        }) + braille_line(cell, width, n - 1)
    }
}

/// The character codes showing the `height` × `width` cells of `cell` with
/// braille characters, four rows and two columns per character.
pub open spec fn braille_text(cell: spec_fn(int, int) -> bool, height: int, width: int) -> Seq<u32> {
    (if width == 0 {
        seq![0x1FB74u32, 0x1FB70u32]
    } else {
        Seq::empty()
    }) + braille_lines(cell, width, ((height + 3) / 4) as nat)
}

/// The codes of the characters of `s`.
pub open spec fn codes(s: Seq<char>) -> Seq<u32> {
    s.map_values(|c: char| c as u32)
}

/// The cell at column `x` and row `y` of `rows`, `false` outside of them.
pub open spec fn jagged_cell(rows: Seq<Seq<bool>>, x: int, y: int) -> bool {
    0 <= y < rows.len() && 0 <= x < rows[y].len() && rows[y][x]
}

/// What is shown at column `x` and row `y` of `rows`, transposed or not.
pub open spec fn braille_cell(rows: Seq<Seq<bool>>, transposed: bool) -> spec_fn(int, int) -> bool {
    if transposed {
        |x: int, y: int| jagged_cell(rows, y, x)
    } else {
        |x: int, y: int| jagged_cell(rows, x, y)
    }
}

impl<'a> BrailleDisplay<'a> {
    /// What is shown at column `x` and row `y`.
    pub open spec fn cell(&self) -> spec_fn(int, int) -> bool {
        braille_cell(self.bitset@, self.transposed)
    }

    /// The characters showing the bitset, see [`JaggedBitset::braille_display`].
    pub fn render(&self) -> (r: Vec<char>)
        requires
            self.bitset@.len() + 4 <= usize::MAX,
            max_len(self.bitset@) + 4 <= usize::MAX,
        ensures
            codes(r@) == if self.transposed {
                braille_text(self.cell(), max_len(self.bitset@) as int, self.bitset@.len() as int)
            } else {
                braille_text(self.cell(), self.bitset@.len() as int, max_len(self.bitset@) as int)
            },
    {
        let max_width = self.bitset.max_width() as usize;
        let height = self.bitset.height();
        if self.transposed {
            display_braille(self.bitset, true, max_width, height)
        } else {
            display_braille(self.bitset, false, height, max_width)
        }
    }
}

/// `1` when the cell at column `x` and row `y` shown by a braille display
/// of `bitset` is enabled, `0` otherwise.
fn braille_bit(bitset: &JaggedBitset, transposed: bool, x: usize, y: usize) -> (r: u32)
    ensures
        r == bit01(braille_cell(bitset@, transposed)(x as int, y as int)),
{
    let b = if transposed {
        bitset.bit(y, x)
    } else {
        bitset.bit(x, y)
    };
    if b {
        1
    } else {
        0
    }
}

/// Shows `height` × `width` cells of `bitset` (transposed or not) with
/// braille characters.
pub fn display_braille(bitset: &JaggedBitset, transposed: bool, height: usize, width: usize) -> (r: Vec<
    char,
>)
    requires
        height + 4 <= usize::MAX,
        width + 4 <= usize::MAX,
    ensures
        codes(r@) == braille_text(
            braille_cell(bitset@, transposed),
            height as int,
            width as int,
        ),
{
    let ghost cell = braille_cell(bitset@, transposed);
    let mut out: Vec<char> = Vec::new();
    if width == 0 {
        out.push('\u{1fb74}');
        out.push('\u{1fb70}');
    }
    let ghost prefix = codes(out@);
    let lines = crate::div_ceil(height, 4);
    let columns = crate::div_ceil(width, 2);
    let mut y: usize = 0;
    proof {
        assert(codes(out@) =~= prefix + braille_lines(cell, width as int, 0));
    }
    while y < lines
        invariant
            y <= lines,
            lines == (height + 3) / 4,
            columns == (width + 1) / 2,
            width + 4 <= usize::MAX,
            height + 4 <= usize::MAX,
            cell == braille_cell(bitset@, transposed),
            prefix == (if width == 0 {
                seq![0x1FB74u32, 0x1FB70u32]
            } else {
                Seq::<u32>::empty()
            }),
            codes(out@) == prefix + braille_lines(cell, width as int, y as nat),
        decreases lines - y,
    {
        let ghost line_start = codes(out@);
        if y != 0 {
            out.push('\n');
        }
        out.push('\u{1fb74}');
        let ghost head = codes(out@);
        proof {
            assert(head =~= line_start + (if y > 0 {
                seq![10u32]
            } else {
                Seq::<u32>::empty()
            }) + seq![0x1FB74u32]);
            assert(head =~= head + Seq::new(0, |i: int| braille_code(cell, i, y as int)));
        }
        let mut x: usize = 0;
        while x < columns
            invariant
                x <= columns,
                columns == (width + 1) / 2,
                width + 4 <= usize::MAX,
                height + 4 <= usize::MAX,
                y < lines,
                lines == (height + 3) / 4,
                cell == braille_cell(bitset@, transposed),
                codes(out@) == head + Seq::new(x as nat, |i: int| braille_code(cell, i, y as int)),
            decreases columns - x,
        {
            let cx = x * 2;
            let cy = y * 4;
            let b00 = braille_bit(bitset, transposed, cx, cy);
            let b10 = braille_bit(bitset, transposed, cx + 1, cy);
            let b01 = braille_bit(bitset, transposed, cx, cy + 1);
            let b11 = braille_bit(bitset, transposed, cx + 1, cy + 1);
            let b02 = braille_bit(bitset, transposed, cx, cy + 2);
            let b12 = braille_bit(bitset, transposed, cx + 1, cy + 2);
            let b03 = braille_bit(bitset, transposed, cx, cy + 3);
            let b13 = braille_bit(bitset, transposed, cx + 1, cy + 3);
            let offset = b00 | b10 << 3 | b01 << 1 | b11 << 4 | b02 << 2 | b12 << 5 | b03 << 6 | b13 << 7;
            proof {
                assert(offset == b00 + 8 * b10 + 2 * b01 + 16 * b11 + 4 * b02 + 32 * b12 + 64 * b03 + 128
                    * b13) by (bit_vector)
                    requires
                        offset == b00 | b10 << 3 | b01 << 1 | b11 << 4 | b02 << 2 | b12 << 5 | b03 << 6
                            | b13 << 7,
                        b00 <= 1,
                        b10 <= 1,
                        b01 <= 1,
                        b11 <= 1,
                        b02 <= 1,
                        b12 <= 1,
                        b03 <= 1,
                        b13 <= 1,
                ;
            }
            let ch = match crate::char_from_u32(0x2800 + offset) {
                Some(c) => c,
                None => ' ',
            };
            proof {
                assert(ch as u32 == braille_code(cell, x as int, y as int));
                assert(codes(out@.push(ch)) =~= codes(out@).push(ch as u32));
                assert(Seq::new((x + 1) as nat, |i: int| braille_code(cell, i, y as int)) =~= Seq::new(
                    x as nat,
                    |i: int| braille_code(cell, i, y as int),
                ).push(braille_code(cell, x as int, y as int)));
            }
            out.push(ch);
            x = x + 1;
        }
        let ghost body = codes(out@);
        out.push('\u{1fb70}');
        proof {
            assert(codes(out@) =~= body.push(0x1FB70u32));
            assert(braille_lines(cell, width as int, (y + 1) as nat) =~= braille_lines(
                cell,
                width as int,
                y as nat,
            ) + (if y + 1 > 1 {
                seq![10u32]
            } else {
                Seq::<u32>::empty()
            }) + braille_line(cell, width as int, y as int));
            assert(codes(out@) =~= prefix + braille_lines(cell, width as int, (y + 1) as nat));
        }
        y = y + 1;
    }
    out
}

/// Adding a row to rows `before` (as [`Builder::add_row`] does, and
/// [`Builder::build`] keeps) leaves the rows before it as they were, and the
/// new last row is one past its largest position wide and reads back its
/// positions, each once, in ascending order.
pub proof fn law_add_row(before: Seq<Seq<bool>>, row: Seq<u32>)
    ensures
        ({
            let after = before.push(row_of(row));
            let ones = ones_seq(after[before.len() as int], 0, after[before.len() as int].len() as int);
            &&& after.len() == before.len() + 1
            &&& forall|i: int| 0 <= i < before.len() ==> #[trigger] after[i] == before[i]
            &&& after[before.len() as int].len() == row_width(row)
            &&& crate::bitset::strictly_ascending(ones)
            &&& forall|j: int| #[trigger]
                ones.contains(j) <==> (0 <= j && row.contains(j as u32) && j <= u32::MAX)
        }),
{
    law_row_read_back(row);
    let after = before.push(row_of(row));
    assert(after[before.len() as int] == row_of(row));
}

/// A row added to a [`Builder`] from the enabled positions `row` is read back
/// by [`JaggedBitset::row`] as exactly those positions, in ascending order and
/// without repetition.
pub proof fn law_row_read_back(row: Seq<u32>)
    ensures
        crate::bitset::strictly_ascending(ones_seq(row_of(row), 0, row_width(row) as int)),
        forall|j: int|
            #![trigger ones_seq(row_of(row), 0, row_width(row) as int).contains(j)]
            ones_seq(row_of(row), 0, row_width(row) as int).contains(j) <==> (0 <= j
                && row.contains(j as u32) && j <= u32::MAX),
{
    lemma_row_width(row);
    let ones = ones_seq(row_of(row), 0, row_width(row) as int);
    lemma_ones_seq(row_of(row), 0, row_width(row) as int);
    assert forall|j: int| #[trigger] ones.contains(j) <==> (0 <= j && row.contains(j as u32)
        && j <= u32::MAX) by {
        if 0 <= j && j <= u32::MAX && row.contains(j as u32) {
            let k = choose|k: int| 0 <= k < row.len() && row[k] == j as u32;
            assert(row[k] < row_width(row));
            assert(row_of(row)[j]);
        }
        if ones.contains(j) {
            assert(row_of(row)[j] == row.contains(j as u32));
        }
    }
}

} // verus!
