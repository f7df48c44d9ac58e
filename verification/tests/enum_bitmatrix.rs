use cuicui::enum_bitmatrix::EnumBitMatrix;

#[test]
fn rows_are_as_wide_as_blocks_per_row() {
    // 8 bits for 3 rows take 24 bytes, 6 blocks: rows are 2 bits wide.
    let matrix = EnumBitMatrix::new(8, 3);
    assert_eq!(matrix.bit_width(), 2);
    let matrix = EnumBitMatrix::new(64, 2);
    assert_eq!(matrix.bit_width(), 16);
}

#[test]
fn set_row_ignores_bits_past_the_width() {
    let mut matrix = EnumBitMatrix::new(8, 3);
    matrix.set_row(1, &[0, 1, 5]);
    assert_eq!(matrix.row(1, 0..8), vec![0, 1]);
    assert_eq!(matrix.row(0, 0..8), Vec::<u32>::new());
    assert_eq!(matrix.row(2, 0..8), Vec::<u32>::new());
    // The window starts at the range start: it reaches into the next row.
    assert_eq!(matrix.row(0, 1..5), vec![2]);
}

#[test]
fn rows_finds_first_bits_of_the_first_row_with_one() {
    let mut matrix = EnumBitMatrix::new(8, 3);
    matrix.set_row(1, &[0, 1]);
    assert_eq!(matrix.rows(0b011, 0..4), vec![0, 2, 2, 3]);
    assert_eq!(matrix.rows(0b100, 0..4), Vec::<u32>::new());

    let mut matrix = EnumBitMatrix::new(64, 2);
    matrix.set_row(0, &[3, 20]);
    matrix.set_row(1, &[0, 15]);
    assert_eq!(matrix.row(0, 0..16), vec![3]);
    assert_eq!(matrix.row(1, 0..16), vec![0, 15]);
    let mut expected = vec![0];
    expected.extend(std::iter::repeat(15).take(15));
    assert_eq!(matrix.rows(0b10, 0..16), expected);
    assert_eq!(matrix.rows(0b11, 0..8), vec![3, 3, 3, 3]);
    assert_eq!(matrix.rows(0b11, 4..8), Vec::<u32>::new());
}
