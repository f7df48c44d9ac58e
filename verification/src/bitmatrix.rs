//! A [bitset](Bitset) with fixed-size rows.
use vstd::prelude::*;

use crate::bitset::{bits_of, ones_seq, Bitset, Ones};

verus! {

/// A [bitset](Bitset) with fixed-size rows.
///
/// Note that only the total size is tracked in `BitMatrix` and you must provide
/// the `width` value when calling methods on `BitMatrix`.
#[derive(Debug)]
pub struct BitMatrix(pub Bitset);

/// The cell at column `x` and row `y` of a matrix of rows `width` bits wide
/// stored in `bits`: `false` when outside of the matrix.
pub open spec fn cell(bits: Seq<bool>, width: int, x: int, y: int) -> bool {
    0 <= x < width && 0 <= y && x + y * width < bits.len() && bits[x + y * width]
}

/// The rows, in ascending order, of the cells enabled in the column of the
/// cell at position `at` of `bits` and those below it (`at + width`, `at + 2 * width`…).
pub open spec fn column_rows(bits: Seq<bool>, width: int, at: int) -> Seq<int>
    decreases (if at < bits.len() {
        bits.len() - at
    } else {
        0
    }),
    when width > 0
{
    if at >= bits.len() || at < 0 {
        Seq::empty()
    } else if bits[at] {
        seq![at / width] + column_rows(bits, width, at + width)
    } else {
        column_rows(bits, width, at + width)
    }
}

/// How many cells of a column are left in `len` bits from position `at`,
/// each `width` bits after the one before.
pub open spec fn cells_left(len: int, width: int, at: int) -> int {
    if at >= len || at < 0 {
        0
    } else {
        (len - at + width - 1) / width
    }
}

/// A column has no more enabled rows than cells left.
pub proof fn lemma_column_rows_len(bits: Seq<bool>, width: int, at: int)
    requires
        width > 0,
    ensures
        column_rows(bits, width, at).len() <= cells_left(bits.len() as int, width, at),
    decreases (if at < bits.len() {
        bits.len() - at
    } else {
        0
    }),
{
    if at >= 0 && at < bits.len() {
        lemma_column_rows_len(bits, width, at + width);
        let x = bits.len() - at + width - 1;
        assert(x >= width);
        if at + width >= bits.len() {
            assert(x / width >= 1) by (nonlinear_arith)
                requires
                    x >= width,
                    width > 0,
            ;
        } else {
            assert((x - width) / width + 1 == x / width) by (nonlinear_arith)
                requires
                    x >= width,
                    width > 0,
            ;
        }
    }
}

/// The rows of `column_rows` starting from row `m0` of column `c` are the
/// rows `r >= m0` whose cell in column `c` is enabled, in ascending order.
pub proof fn lemma_column_rows(bits: Seq<bool>, width: int, c: int, m0: int)
    requires
        0 <= c < width,
        0 <= m0,
    ensures
        crate::bitset::strictly_ascending(column_rows(bits, width, c + m0 * width)),
        forall|r: int| #[trigger]
            column_rows(bits, width, c + m0 * width).contains(r) <==> (m0 <= r && c + r * width
                < bits.len() && bits[c + r * width]),
    decreases (if c + m0 * width < bits.len() {
        bits.len() - (c + m0 * width)
    } else {
        0
    }),
{
    let at = c + m0 * width;
    let s = column_rows(bits, width, at);
    assert((c + m0 * width) / width == m0) by (nonlinear_arith)
        requires
            0 <= c < width,
            0 <= m0,
    ;
    assert(c + (m0 + 1) * width == c + m0 * width + width) by (nonlinear_arith);
    if at >= bits.len() {
        assert forall|r: int| #[trigger] s.contains(r) <==> (m0 <= r && c + r * width
            < bits.len() && bits[c + r * width]) by {
            if m0 <= r {
                assert(c + r * width >= c + m0 * width) by (nonlinear_arith)
                    requires
                        m0 <= r,
                        0 < width,
                ;
            }
        }
    } else {
        lemma_column_rows(bits, width, c, m0 + 1);
        let rest = column_rows(bits, width, at + width);
        assert forall|r: int| #[trigger] rest.contains(r) <==> (m0 + 1 <= r && c + r * width
            < bits.len() && bits[c + r * width]) by {}
        if bits[at] {
            assert(s == seq![m0] + rest);
            assert forall|r: int| #[trigger] s.contains(r) <==> (m0 <= r && c + r * width < bits.len()
                && bits[c + r * width]) by {
                if r == m0 {
                    assert(s[0] == m0);
                }
                if s.contains(r) && r != m0 {
                    let k = choose|k: int| 0 <= k < s.len() && s[k] == r;
                    assert(rest[k - 1] == r);
                    assert(rest.contains(r));
                }
                if m0 < r && c + r * width < bits.len() && bits[c + r * width] {
                    assert(rest.contains(r));
                    let k = choose|k: int| 0 <= k < rest.len() && rest[k] == r;
                    assert(s[k + 1] == r);
                }
            }
            assert forall|a: int, b: int| 0 <= a < b < s.len() implies s[a] < s[b] by {
                if a > 0 {
                    assert(s[a] == rest[a - 1]);
                } else {
                    assert(rest.contains(rest[b - 1]));
                }
                assert(s[b] == rest[b - 1]);
            }
        } else {
            assert(s == rest);
            assert forall|r: int| #[trigger] s.contains(r) <==> (m0 <= r && c + r * width < bits.len()
                && bits[c + r * width]) by {
                if r == m0 {
                    assert(!rest.contains(m0));
                }
            }
        }
    }
}

/// The rows that a column of a matrix yields are, in strictly ascending
/// order, exactly those whose cell in that column is enabled.
pub proof fn law_column_rows(bits: Seq<bool>, width: int, column: int)
    requires
        0 <= column < width,
    ensures
        crate::bitset::strictly_ascending(column_rows(bits, width, column)),
        forall|r: int| #[trigger]
            column_rows(bits, width, column).contains(r) <==> cell(bits, width, column, r),
{
    lemma_column_rows(bits, width, column, 0);
    assert(column + 0 * width == column);
}

impl View for BitMatrix {
    type V = Seq<bool>;

    open spec fn view(&self) -> Seq<bool> {
        self.0@
    }
}

impl BitMatrix {
    /// The bit length of this matrix fits in a `usize`.
    pub open spec fn wf(&self) -> bool {
        self.0.wf()
    }

    /// Iterate over active bits in given `column`.
    ///
    /// The rows are returned in ascending order, see [`Column`].
    pub fn active_rows_in_column(&self, width: usize, column: usize) -> (r: Column<'_>)
        requires
            width != 0,
            self.wf(),
            column + width <= usize::MAX,
            self@.len() + 2 * width <= usize::MAX,
        ensures
            r.wf(),
            r@ == column_rows(self@, width as int, column as int),
    {
        Column { data: self.0.0.as_slice(), width, current_cell: column }
    }

    /// The columns of enabled cells of row `row`, in ascending order.
    ///
    /// # Panics
    ///
    /// When the row doesn't fit in the matrix.
    pub fn row(&self, width: usize, row: usize) -> (r: Vec<usize>)
        requires
            self.wf(),
            row + 1 <= usize::MAX,
            (row + 1) * width <= self@.len(),
            (row + 1) * width <= 0x1_0000_0000,
        ensures
            r@.len() == ones_seq(self@, row * width, (row + 1) * width).len(),
            forall|k: int|
                0 <= k < r@.len() ==> #[trigger] r@[k] + row * width == ones_seq(
                    self@,
                    row * width,
                    (row + 1) * width,
                )[k],
    {
        proof {
            assert(row * width <= (row + 1) * width) by (nonlinear_arith);
        }
        let start = row * width;
        let end = (row + 1) * width;
        let mut ones = self.0.ones_in_range(start..end);
        let found = ones.to_vec();
        let mut out: Vec<usize> = Vec::new();
        let mut i: usize = 0;
        proof {
            crate::bitset::lemma_ones_seq(self@, start as int, end as int);
        }
        while i < found.len()
            invariant
                i <= found@.len(),
                found@.len() == ones_seq(self@, start as int, end as int).len(),
                forall|k: int|
                    0 <= k < found@.len() ==> #[trigger] found@[k] as int == ones_seq(
                        self@,
                        start as int,
                        end as int,
                    )[k],
                forall|k: int|
                    0 <= k < ones_seq(self@, start as int, end as int).len() ==> start
                        <= #[trigger] ones_seq(self@, start as int, end as int)[k] < end,
                out@.len() == i,
                forall|k: int| 0 <= k < i ==> #[trigger] out@[k] + start == found@[k],
            decreases found@.len() - i,
        {
            let v = found[i] as usize;
            assert(v >= start);
            out.push(v - start);
            i = i + 1;
        }
        out
    }

    /// Enable the cell at column `column` of row `row`.
    ///
    /// Returns `None` and does nothing if the cell is out of the bitset.
    #[inline]
    pub fn enable_bit(&mut self, width: usize, row: usize, column: usize) -> (r: Option<()>)
        requires
            width * row + column <= usize::MAX,
        ensures
            r is Some <==> width * row + column < old(self)@.len(),
            r is Some ==> final(self)@ == old(self)@.update(width * row + column, true),
            r is None ==> final(self)@ == old(self)@,
            final(self).0.0@.len() == old(self).0.0@.len(),
    {
        self.0.enable_bit(width * row + column)
    }

    /// Create a [`BitMatrix`] with given proportions.
    ///
    /// Every bit is disabled. The storage holds `⌈width × height / 4⌉` blocks of
    /// 32 bits.
    pub fn new_with_size(width: usize, height: usize) -> (r: Self)
        requires
            width * height + 4 <= usize::MAX,
            ((width * height + 3) / 4) * 32 <= usize::MAX,
        ensures
            r.wf(),
            r.0.0@.len() == (width * height + 3) / 4,
            forall|i: int| 0 <= i < r@.len() ==> !#[trigger] r@[i],
    {
        let bit_size = width * height;
        let u32_size = crate::div_ceil(bit_size, 4);
        let data: Vec<u32> = vec![0u32; u32_size];
        proof {
            assert forall|i: int| 0 <= i < bits_of(data@).len() implies !#[trigger] bits_of(
                data@,
            )[i] by {
                crate::bits::lemma_zero_bits((i % 32) as u32);
            }
        }
        BitMatrix(Bitset(data))
    }

    /// `true` if bit at position `x, y` in matrix is enabled.
    ///
    /// `false` otherwise, included if `x, y` is outside of the matrix.
    pub fn bit(&self, x: usize, y: usize, width: usize) -> (r: bool)
        requires
            x < width ==> x + y * width <= usize::MAX,
        ensures
            r == cell(self@, width as int, x as int, y as int),
    {
        x < width && self.0.bit(x + y * width)
    }

    /// Return a struct that, when rendered with [`SextantDisplay::render`],
    /// displays the matrix using unicode sextant characters([pdf]).
    ///
    /// [pdf]: https://unicode.org/charts/PDF/U1FB00.pdf
    pub fn sextant_display(&self, width: usize, height: usize) -> (r: SextantDisplay<'_>)
        ensures
            r.matrix == self,
            r.width == width,
            r.height == height,
    {
        SextantDisplay { matrix: self, width, height }
    }
}

/// Iterator over a single column of a [`BitMatrix`],
/// see [`BitMatrix::active_rows_in_column`] documentation for details.
pub struct Column<'a> {
    width: usize,
    current_cell: usize,
    data: &'a [u32],
}

impl<'a> View for Column<'a> {
    type V = Seq<int>;

    closed spec fn view(&self) -> Seq<int> {
        column_rows(bits_of(self.data@), self.width as int, self.current_cell as int)
    }
}

impl<'a> Column<'a> {
    /// How many blocks of 32 bits the matrix holds.
    pub closed spec fn block_count(&self) -> nat {
        self.data@.len()
    }

    /// The position of the next cell to read.
    pub closed spec fn cursor(&self) -> nat {
        self.current_cell as nat
    }

    /// The width of the matrix rows.
    pub closed spec fn step(&self) -> nat {
        self.width as nat
    }

    /// The cursor can move past every cell without overflowing.
    pub closed spec fn wf(&self) -> bool {
        &&& self.width > 0
        &&& self.current_cell + self.width <= usize::MAX
        &&& self.data@.len() * 32 + 2 * self.width <= usize::MAX
    }

    /// The row of the next enabled cell of the column.
    pub fn next(&mut self) -> (r: Option<usize>)
        requires
            old(self).wf(),
        ensures
            r is Some ==> final(self).wf(),
            old(self)@.len() == 0 ==> r is None,
            old(self)@.len() > 0 ==> (r matches Some(v) && v == old(self)@[0]),
            old(self)@.len() > 0 ==> final(self)@ == old(self)@.drop_first(),
            r is None ==> final(self)@.len() == 0,
    {
        let ghost bits = bits_of(self.data@);
        loop
            invariant
                self.wf(),
                bits == bits_of(self.data@),
                column_rows(bits, self.width as int, self.current_cell as int) == old(self)@,
                self.data == old(self).data,
                self.width == old(self).width,
            decreases bits.len() + self.width - self.current_cell,
        {
            let bit = self.current_cell;
            let row = self.current_cell / self.width;
            self.current_cell = self.current_cell + self.width;
            let block = bit / 32;
            let offset = (bit % 32) as u32;
            if block >= self.data.len() {
                return None;
            }
            let word = self.data[block];
            proof {
                crate::bits::lemma_mask_test(word, offset);
                assert(bits[bit as int] == crate::bits::bit_of(word, offset));
            }
            if word & (1u32 << offset) != 0 {
                return Some(row);
            }
        }
    }

    /// Lower and upper bounds of the number of rows left: at most one per
    /// cell of the column left in the matrix.
    pub fn size_hint(&self) -> (r: (usize, Option<usize>))
        requires
            self.wf(),
        ensures
            r.0 == 0,
            r.1 matches Some(u) && u == cells_left(
                (32 * self.block_count()) as int,
                self.step() as int,
                self.cursor() as int,
            ),
            r.1 matches Some(u) && self@.len() <= u,
    {
        proof {
            lemma_column_rows_len(bits_of(self.data@), self.width as int, self.current_cell as int);
        }
        let bits = self.data.len() * 32;
        let upper = if self.current_cell >= bits {
            0
        } else {
            (bits - self.current_cell + self.width - 1) / self.width
        };
        (0, Some(upper))
    }
}

/// Nice printing for [`BitMatrix`], see [`BitMatrix::sextant_display`] for details.
#[derive(Copy, Clone)]
pub struct SextantDisplay<'a> {
    pub matrix: &'a BitMatrix,
    pub width: usize,
    pub height: usize,
}

/// The code of the sextant character showing the 2×3 cells of `cell` whose
/// top left cell is at column `2x` and row `3y`: a full block when all are
/// enabled, a space when none is, the left or right half block when the left
/// or right column alone is, and else the block sextant of those cells
/// (numbered from `U+1FB00`, which leaves out the two half blocks).
pub open spec fn sextant_code(cell: spec_fn(int, int) -> bool, x: int, y: int) -> u32 {
    let offset = crate::jagged_bitset::bit01(cell(2 * x, 3 * y)) + 2 * crate::jagged_bitset::bit01(
        cell(2 * x + 1, 3 * y),
    ) + 4 * crate::jagged_bitset::bit01(cell(2 * x, 3 * y + 1)) + 8 * crate::jagged_bitset::bit01(
        cell(2 * x + 1, 3 * y + 1),
    ) + 16 * crate::jagged_bitset::bit01(cell(2 * x, 3 * y + 2)) + 32
        * crate::jagged_bitset::bit01(cell(2 * x + 1, 3 * y + 2));
    if offset == 63 {
        0x2588u32
    } else if offset == 0 {
        0x20u32
    } else if offset == 21 {
        0x258Cu32
    } else if offset == 42 {
        0x2590u32
    } else if offset < 21 {
        (0x1fb00 + offset - 1) as u32
    } else if offset < 42 {
        (0x1fb00 + offset - 2) as u32
    } else {
        (0x1fb00 + offset - 3) as u32
    }
}

/// The character codes of sextant line `y`: a left bracket, one character
/// per pair of columns, and a right bracket.
pub open spec fn sextant_line(cell: spec_fn(int, int) -> bool, width: int, y: int) -> Seq<u32> {
    seq![0x1FB74u32] + Seq::new(((width + 1) / 2) as nat, |x: int| sextant_code(cell, x, y))
        + seq![0x1FB70u32]
}

/// The character codes of the first `n` sextant lines, separated by newlines.
pub open spec fn sextant_lines(cell: spec_fn(int, int) -> bool, width: int, n: nat) -> Seq<u32>
    decreases n,
{
    if n == 0 {
        Seq::empty()
    } else {
        sextant_lines(cell, width, (n - 1) as nat) + (if n > 1 {
            seq![10u32]
        } else {
            Seq::empty()
        }) + sextant_line(cell, width, n - 1)
    }
}

/// The character codes showing the `height` × `width` cells of `cell` with
/// sextant characters, three rows and two columns per character.
pub open spec fn sextant_text(cell: spec_fn(int, int) -> bool, height: int, width: int) -> Seq<u32> {
    (if height == 0 {
        seq![0x1FB74u32, 0x1FB70u32]
    } else {
        Seq::empty()
    }) + sextant_lines(cell, width, ((height + 2) / 3) as nat)
}

/// The cells of a matrix stored in `bits` with rows `width` bits wide.
pub open spec fn matrix_cell(bits: Seq<bool>, width: int) -> spec_fn(int, int) -> bool {
    |x: int, y: int| cell(bits, width, x, y)
}

impl<'a> SextantDisplay<'a> {
    /// The characters showing the matrix, see [`BitMatrix::sextant_display`].
    pub fn render(&self) -> (r: Vec<char>)
        requires
            self.height + 4 <= usize::MAX,
            self.width + 4 <= usize::MAX,
            (self.height + 4) * (self.width + 1) <= usize::MAX,
        ensures
            crate::jagged_bitset::codes(r@) == sextant_text(
                matrix_cell(self.matrix@, self.width as int),
                self.height as int,
                self.width as int,
            ),
    {
        let width = self.width;
        let height = self.height;
        let matrix = self.matrix;
        let ghost cellf = matrix_cell(matrix@, width as int);
        let mut out: Vec<char> = Vec::new();
        if height == 0 {
            out.push('\u{1fb74}');
            out.push('\u{1fb70}');
        }
        let ghost prefix = crate::jagged_bitset::codes(out@);
        let lines = crate::div_ceil(height, 3);
        let columns = crate::div_ceil(width, 2);
        let mut y: usize = 0;
        proof {
            assert(crate::jagged_bitset::codes(out@) =~= prefix + sextant_lines(cellf, width as int, 0));
        }
        while y < lines
            invariant
                y <= lines,
                lines == (height + 2) / 3,
                columns == (width + 1) / 2,
                width + 4 <= usize::MAX,
                height + 4 <= usize::MAX,
                (height + 4) * (width + 1) <= usize::MAX,
                cellf == matrix_cell(matrix@, width as int),
                prefix == (if height == 0 {
                    seq![0x1FB74u32, 0x1FB70u32]
                } else {
                    Seq::<u32>::empty()
                }),
                crate::jagged_bitset::codes(out@) == prefix + sextant_lines(cellf, width as int, y as nat),
            decreases lines - y,
        {
            let ghost line_start = crate::jagged_bitset::codes(out@);
            if y != 0 {
                out.push('\n');
            }
            out.push('\u{1fb74}');
            let ghost head = crate::jagged_bitset::codes(out@);
            proof {
                assert(head =~= line_start + (if y > 0 {
                    seq![10u32]
                } else {
                    Seq::<u32>::empty()
                }) + seq![0x1FB74u32]);
                assert(head =~= head + Seq::new(0, |i: int| sextant_code(cellf, i, y as int)));
            }
            let mut x: usize = 0;
            while x < columns
                invariant
                    x <= columns,
                    columns == (width + 1) / 2,
                    width + 4 <= usize::MAX,
                    height + 4 <= usize::MAX,
                    (height + 4) * (width + 1) <= usize::MAX,
                    y < lines,
                    lines == (height + 2) / 3,
                    cellf == matrix_cell(matrix@, width as int),
                    crate::jagged_bitset::codes(out@) == head + Seq::new(
                        x as nat,
                        |i: int| sextant_code(cellf, i, y as int),
                    ),
                decreases columns - x,
            {
                let cx = x * 2;
                let cy = y * 3;
                proof {
                    assert(cy + 2 <= height + 3);
                    assert(cx + 1 <= width + 1);
                    assert forall|ox: int, oy: int| 0 <= ox <= 1 && 0 <= oy <= 2 implies #[trigger] (cx
                        + ox + (cy + oy) * width) <= usize::MAX by {
                        assert(cx + ox + (cy + oy) * width <= (height + 4) * (width + 1)) by (nonlinear_arith)
                            requires
                                cx + ox <= width + 1,
                                cy + oy <= height + 3,
                                0 <= cx + ox,
                                0 <= cy + oy,
                                0 <= width,
                        ;
                    }
                    assert((cx + 0 + (cy + 0) * width) <= usize::MAX);
                    assert((cx + 1 + (cy + 0) * width) <= usize::MAX);
                    assert((cx + 0 + (cy + 1) * width) <= usize::MAX);
                    assert((cx + 1 + (cy + 1) * width) <= usize::MAX);
                    assert((cx + 0 + (cy + 2) * width) <= usize::MAX);
                    assert((cx + 1 + (cy + 2) * width) <= usize::MAX);
                }
                let b00: u32 = if matrix.bit(cx, cy, width) { 1 } else { 0 };
                let b10: u32 = if matrix.bit(cx + 1, cy, width) { 1 } else { 0 };
                let b01: u32 = if matrix.bit(cx, cy + 1, width) { 1 } else { 0 };
                let b11: u32 = if matrix.bit(cx + 1, cy + 1, width) { 1 } else { 0 };
                let b02: u32 = if matrix.bit(cx, cy + 2, width) { 1 } else { 0 };
                let b12: u32 = if matrix.bit(cx + 1, cy + 2, width) { 1 } else { 0 };
                let offset = b00 | b10 << 1 | b01 << 2 | b11 << 3 | b02 << 4 | b12 << 5;
                proof {
                    assert(offset == b00 + 2 * b10 + 4 * b01 + 8 * b11 + 16 * b02 + 32 * b12) by (bit_vector)
                        requires
                            offset == b00 | b10 << 1 | b01 << 2 | b11 << 3 | b02 << 4 | b12 << 5,
                            b00 <= 1,
                            b10 <= 1,
                            b01 <= 1,
                            b11 <= 1,
                            b02 <= 1,
                            b12 <= 1,
                    ;
                }
                let character = if offset == 0b111111 {
                    '\u{2588}'
                } else if offset == 0 {
                    ' '
                } else if offset == 21 {
                    '\u{258C}'
                } else if offset == 42 {
                    '\u{2590}'
                } else {
                    let skipped: u32 = if offset < 21 {
                        1
                    } else if offset < 42 {
                        2
                    } else {
                        3
                    };
                    match crate::char_from_u32(0x1fb00 + offset - skipped) {
                        Some(c) => c,
                        None => ' ',
                    }
                };
                proof {
                    assert(character as u32 == sextant_code(cellf, x as int, y as int));
                    assert(crate::jagged_bitset::codes(out@.push(character)) =~= crate::jagged_bitset::codes(
                        out@,
                    ).push(character as u32));
                    assert(Seq::new((x + 1) as nat, |i: int| sextant_code(cellf, i, y as int)) =~= Seq::new(
                        x as nat,
                        |i: int| sextant_code(cellf, i, y as int),
                    ).push(sextant_code(cellf, x as int, y as int)));
                }
                out.push(character);
                x = x + 1;
            }
            let ghost body = crate::jagged_bitset::codes(out@);
            out.push('\u{1fb70}');
            proof {
                assert(crate::jagged_bitset::codes(out@) =~= body.push(0x1FB70u32));
                assert(sextant_lines(cellf, width as int, (y + 1) as nat) =~= sextant_lines(
                    cellf,
                    width as int,
                    y as nat,
                ) + (if y + 1 > 1 {
                    seq![10u32]
                } else {
                    Seq::<u32>::empty()
                }) + sextant_line(cellf, width as int, y as int));
                assert(crate::jagged_bitset::codes(out@) =~= prefix + sextant_lines(
                    cellf,
                    width as int,
                    (y + 1) as nat,
                ));
            }
            y = y + 1;
        }
        out
    }
}

/// Enabling the bit of row `r` and column `c` (as [`BitMatrix::enable_bit`]
/// does) makes the cell at column `c` of row `r` enabled, and leaves every
/// other cell as it was.
pub proof fn law_enabled_cell(bits: Seq<bool>, width: int, r: int, c: int, x: int, y: int)
    requires
        0 <= c < width,
        0 <= r,
        width * r + c < bits.len(),
    ensures
        cell(bits.update(width * r + c, true), width, c, r),
        (x != c || y != r) ==> cell(bits.update(width * r + c, true), width, x, y) == cell(
            bits,
            width,
            x,
            y,
        ),
{
    assert(width * r == r * width) by (nonlinear_arith);
    if (x != c || y != r) && 0 <= x < width && 0 <= y {
        if x + y * width == c + r * width {
            assert(r * width + c == y * width + x);
            lemma_cell_unique(r, c, y, x, width);
        }
    }
}

proof fn lemma_cell_unique(i: int, j: int, i2: int, j2: int, w: int)
    requires
        0 <= j < w,
        0 <= j2 < w,
        0 <= i,
        0 <= i2,
        i * w + j == i2 * w + j2,
    ensures
        i == i2,
        j == j2,
{
    if i < i2 {
        assert(i * w + w <= i2 * w) by (nonlinear_arith)
            requires
                i < i2,
                0 <= w,
        ;
    } else if i2 < i {
        assert(i2 * w + w <= i * w) by (nonlinear_arith)
            requires
                i2 < i,
                0 <= w,
        ;
    }
}

/// The columns of the enabled cells of row `r`, in ascending order: the
/// positions of `ones_seq` over the row, relative to the row start.
pub open spec fn row_columns(bits: Seq<bool>, width: int, r: int) -> Seq<int> {
    ones_seq(bits, r * width, (r + 1) * width).map_values(|i: int| i - r * width)
}

/// The columns [`BitMatrix::row`] returns are, in ascending order, exactly
/// the enabled cells of the row.
pub proof fn law_row_columns(bits: Seq<bool>, width: int, r: int)
    requires
        0 <= r,
        0 <= width,
        (r + 1) * width <= bits.len(),
    ensures
        crate::bitset::strictly_ascending(row_columns(bits, width, r)),
        forall|c: int| #[trigger]
            row_columns(bits, width, r).contains(c) <==> cell(bits, width, c, r),
{
    let start = r * width;
    assert((r + 1) * width == start + width && start >= 0) by (nonlinear_arith)
        requires
            0 <= r,
            0 <= width,
            start == r * width,
    ;
    let window = Seq::new(width as nat, |c: int| bits[start + c]);
    crate::bitset::lemma_ones_seq_shift(bits, window, start);
    crate::bitset::lemma_ones_seq(window, 0, width);
    assert(row_columns(bits, width, r) == ones_seq(window, 0, width));
    assert forall|c: int| #[trigger]
        row_columns(bits, width, r).contains(c) <==> cell(bits, width, c, r) by {
        if 0 <= c < width {
            assert(c + r * width == start + c);
            assert(window[c] == bits[start + c]);
        }
    }
}

} // verus!
