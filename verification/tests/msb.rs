use cuicui::{div_ceil, Index, MostSignificantBit};

#[test]
fn msb() {
    assert_eq!(101_u32.most_significant_bit(), 7);
    assert_eq!(10_u32.most_significant_bit(), 4);
    assert_eq!(0b0000_u32.most_significant_bit(), 0);
    assert_eq!(0b0001_u32.most_significant_bit(), 1);
    assert_eq!(0b0010_u32.most_significant_bit(), 2);
    assert_eq!(0b0011_u32.most_significant_bit(), 2);
    assert_eq!(0b0100_u32.most_significant_bit(), 3);
    assert_eq!(0b0101_u32.most_significant_bit(), 3);
    assert_eq!(0b0110_u32.most_significant_bit(), 3);
    assert_eq!(0b0111_u32.most_significant_bit(), 3);
    assert_eq!(0b1000_u32.most_significant_bit(), 4);
    assert_eq!(0b1001_u32.most_significant_bit(), 4);
    assert_eq!(0b1010_u32.most_significant_bit(), 4);
    assert_eq!(0b1011_u32.most_significant_bit(), 4);
    assert_eq!(0b1100_u32.most_significant_bit(), 4);
    assert_eq!(0b1101_u32.most_significant_bit(), 4);
    assert_eq!(0b1110_u32.most_significant_bit(), 4);
    assert_eq!(0b1111_u32.most_significant_bit(), 4);
    assert_eq!(0b0100_0000_0000u32.most_significant_bit(), 11);
    assert_eq!(0b1000_0000_0000_0000u32.most_significant_bit(), 16);
    assert_eq!(0b0010_0000_0000_0000u32.most_significant_bit(), 14);
    assert_eq!(0xf000_0000u32.most_significant_bit(), 32);
    assert_eq!(0xffff_ffffu32.most_significant_bit(), 32);
    assert_eq!(0xffff_0000u32.most_significant_bit(), 32);
}

#[test]
fn msb_usize() {
    assert_eq!(0_usize.most_significant_bit(), 0);
    assert_eq!(1_usize.most_significant_bit(), 1);
    assert_eq!(101_usize.most_significant_bit(), 7);
    assert_eq!((1usize << 40).most_significant_bit(), 41);
}

#[test]
fn div_ceil_rounds_up() {
    assert_eq!(div_ceil(0, 4), 0);
    assert_eq!(div_ceil(1, 4), 1);
    assert_eq!(div_ceil(8, 4), 2);
    assert_eq!(div_ceil(9, 4), 3);
}

#[test]
fn index_of_integers() {
    assert_eq!(Index::get(&7usize), 7);
    assert_eq!(Index::get(&7u32), 7);
    assert_eq!(Index::get(&7u64), 7);
}
