use cuicui::bitset::Bitset;
use std::ops::Not;

//                            16v  32v     48v  64v     80v  96v
const BLOCKS: [u32; 3] = [0xf0f0_00ff, 0xfff0_000f, 0xfff0_0f0f];

fn blocks() -> Bitset {
    Bitset(BLOCKS.map(|i| i.reverse_bits()).to_vec())
}

fn ones(bitset: &Bitset, range: std::ops::Range<usize>) -> Vec<u32> {
    bitset.ones_in_range(range).to_vec()
}

#[test]
fn empty_empty() {
    let blocks = Bitset(vec![]);
    let actual: Vec<_> = ones(&blocks, 0..0);
    let expected: &[u32] = &[];
    assert_eq!(expected, actual);
}
#[test]
fn empty_range() {
    let blocks = blocks();

    let actual: Vec<_> = ones(&blocks, 17..17);
    let expected: &[u32] = &[];
    assert_eq!(expected, actual);

    let actual: Vec<_> = ones(&blocks, 32..32);
    assert_eq!(expected, actual);

    let actual: Vec<_> = ones(&blocks, 0..0);
    assert_eq!(expected, actual);
}
#[test]
fn same_block() {
    let blocks = blocks();

    let actual: Vec<_> = ones(&blocks, 16..31);
    let expected: Vec<u32> = (24..31).collect();
    assert_eq!(&expected, &actual);

    let actual: Vec<_> = ones(&blocks, 16..32);
    let expected: Vec<u32> = (24..32).collect();
    assert_eq!(&expected, &actual);

    let actual: Vec<_> = ones(&blocks, 64..80);
    let expected: Vec<u32> = (64..76).collect();
    assert_eq!(&expected, &actual);
}
#[test]
fn both_unaligned() {
    let range = 24..76;
    let blocks = blocks();
    let actual: Vec<_> = ones(&blocks, range);
    let expected: Vec<u32> = (24..44).chain(60..76).collect();
    assert_eq!(&expected, &actual);
}
#[test]
fn first_unaligned() {
    let range = 24..64;
    let blocks = blocks();
    let actual: Vec<_> = ones(&blocks, range);
    let expected: Vec<u32> = (24..44).chain(60..64).collect();
    assert_eq!(&expected, &actual);
}
#[test]
fn last_unaligned() {
    let range = 32..76;
    let blocks = blocks();
    let actual: Vec<_> = ones(&blocks, range);
    let expected: Vec<u32> = (32..44).chain(60..76).collect();
    assert_eq!(&expected, &actual);
}
#[test]
fn none_unaligned() {
    let range = 32..64;
    let blocks = blocks();
    let actual: Vec<_> = ones(&blocks, range);
    let expected: Vec<u32> = (32..44).chain(60..64).collect();
    assert_eq!(&expected, &actual);
}
#[test]
fn full_range() {
    let range = 0..96;
    let blocks = blocks();
    let actual: Vec<_> = ones(&blocks, range);
    let expected: Vec<u32> = (0..4)
        .chain(8..12)
        .chain(24..44)
        .chain(60..76)
        .chain(84..88)
        .chain(92..96)
        .collect();
    assert_eq!(&expected, &actual);
}
#[test]
fn u32_at() {
    let bitset = Bitset(vec![0xf0f0_00ff, 0xfff0_000f, 0xfff0_0f0f]);

    let (at, expected) = (bitset.u32_at(0).unwrap(), 0xf0f0_00ff);
    assert_eq!(at, expected, "left: {at:08x}, right: {expected:08x}");

    let (at, expected) = (bitset.u32_at(4).unwrap(), 0xff0f_000f);
    assert_eq!(at, expected, "left: {at:08x}, right: {expected:08x}");

    let (at, expected) = (bitset.u32_at(16).unwrap(), 0x000f_f0f0);
    assert_eq!(at, expected, "left: {at:08x}, right: {expected:08x}");

    let (at, expected) = (bitset.u32_at(64).unwrap(), 0xfff0_0f0f);
    assert_eq!(at, expected, "left: {at:08x}, right: {expected:08x}");

    assert_eq!(bitset.u32_at(65), None);
    assert_eq!(bitset.u32_at(96), None);

    let bitset = Bitset(vec![u32::MAX, u32::MAX, u32::MAX]);

    assert_eq!(bitset.u32_at(0).unwrap(), u32::MAX);
    assert_eq!(bitset.u32_at(1).unwrap(), u32::MAX);
    assert_eq!(bitset.u32_at(2).unwrap(), u32::MAX);
    assert_eq!(bitset.u32_at(7).unwrap(), u32::MAX);
    assert_eq!(bitset.u32_at(16).unwrap(), u32::MAX);
    assert_eq!(bitset.u32_at(64).unwrap(), u32::MAX);
    assert_eq!(bitset.u32_at(31).unwrap(), u32::MAX);
    assert_eq!(bitset.u32_at(32).unwrap(), u32::MAX);
    assert_eq!(bitset.u32_at(33).unwrap(), u32::MAX);

    assert_eq!(bitset.u32_at(65), None);
    assert_eq!(bitset.u32_at(96), None);
}
#[test]
fn disable_range() {
    let mut bitset = Bitset(vec![0xffff_ffff, 0xffff_ffff, 0xffff_ffff]);

    assert!(bitset.bit(0));
    assert!(bitset.bit(10));
    assert!(bitset.bit(15));
    assert!(bitset.bit(16));
    assert!(bitset.bit(32));
    assert!(bitset.bit(35));
    assert!(bitset.bit(53));
    assert!(bitset.bit(54));
    assert!(bitset.bit(64));
    assert!(bitset.bit(73));

    bitset.disable_range(0..16);
    bitset.disable_range(35..54);

    assert!(bitset.bit(0).not());
    assert!(bitset.bit(10).not());
    assert!(bitset.bit(15).not());
    assert!(bitset.bit(16));
    assert!(bitset.bit(32));
    assert!(bitset.bit(35).not());
    assert!(bitset.bit(53).not());
    assert!(bitset.bit(54));
    assert!(bitset.bit(64));
    assert!(bitset.bit(73));
}

#[test]
fn storage_agnostic_ones() {
    let bunch_of_bits = [0xf0f0_00ff, 0xfff0_000f, 0xfff0_0f0f];
    let mut as_vec = Bitset(bunch_of_bits.to_vec());
    let before = ones(&as_vec, 5..91);
    assert!(!as_vec.bit(11));
    as_vec.enable_bit(11);
    let after = ones(&as_vec, 5..91);
    assert_ne!(before, after);
    assert!(after.contains(&11));
    assert_eq!(after.len(), before.len() + 1);
}

#[test]
fn enable_bit_extending_doc() {
    let mut as_vec = Bitset(vec![]);
    assert!(as_vec.enable_bit(64).is_none());
    assert_eq!(as_vec.0.len(), 0);

    as_vec.enable_bit_extending(73);

    assert!(as_vec.bit(73));
    assert!(as_vec.enable_bit(64).is_some());
    assert!(as_vec.bit(64));
    assert_eq!(as_vec.0.len(), 3);
}

#[test]
fn extend_enables_every_listed_bit() {
    let mut bitset = Bitset(vec![0]);
    bitset.extend(&[3, 40, 3, 100]);
    assert_eq!(bitset.0.len(), 4);
    assert_eq!(ones(&bitset, 0..128), vec![3, 40, 100]);
    assert_eq!(bitset.bit_len(), 128);
}

#[test]
fn enabled_bit_is_read_back_and_others_stay() {
    let mut bitset = Bitset(vec![0x0000_0001, 0]);
    assert_eq!(bitset.enable_bit(33), Some(()));
    assert!(bitset.bit(33));
    assert!(bitset.bit(0));
    assert!(!bitset.bit(32));
    assert_eq!(bitset.enable_bit(64), None);
    assert!(!bitset.bit(64));
    assert!(!bitset.bit(1000));
}

#[test]
fn ones_iterate_one_at_a_time() {
    let bitset = Bitset(vec![0b1010, 0x8000_0000]);
    let mut ones = bitset.ones_in_range(2..64);
    assert_eq!(ones.next(), Some(3));
    assert_eq!(ones.next(), Some(63));
    assert_eq!(ones.next(), None);
}
