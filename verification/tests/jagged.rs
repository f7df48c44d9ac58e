use cuicui::jagged_bitset::{Builder, JaggedBitset};
use cuicui::jagged_const_row_array::{self, JaggedConstRowArray};
use cuicui::jagged_vec::{self, JaggedVec};

fn sample() -> JaggedBitset {
    Builder::with_capacity(7)
        .with_row(&[0, 2, 4, 8])
        .with_row(&[63, 12, 2, 3])
        .with_row(&[1, 3, 5, 7, 9, 11])
        .with_row(&[])
        .with_row(&[])
        .with_row(&[])
        .with_row(&[1, 3])
        .build()
}

fn render(chars: Vec<char>) -> String {
    chars.into_iter().collect()
}

#[test]
fn jagged_bitset_rows() {
    let jagged = sample();
    assert_eq!(&jagged.row(1), &[2, 3, 12, 63]);
    assert_eq!(&jagged.row(3), &[]);
    assert_eq!(&jagged.row(6), &[1, 3]);
    assert_eq!(jagged.height(), 7);
    assert_eq!(jagged.width(0), 9);
    assert_eq!(jagged.width(1), 64);
    assert_eq!(jagged.get_width(3), Some(0));
    assert_eq!(jagged.get_width(7), None);
    assert_eq!(jagged.max_width(), 64);
    assert!(jagged.bit(8, 0));
    assert!(!jagged.bit(7, 0));
    assert!(jagged.bit(63, 1));
    assert!(!jagged.bit(64, 1));
    assert!(!jagged.bit(0, 7));
}

#[test]
fn jagged_bitset_add_row() {
    let mut build = Builder::with_capacity(7);
    build.add_row(&[0, 2, 4, 8]);
    build.add_row(&[63, 12, 2, 3]);
    build.add_row(&[1, 3, 5, 7, 9, 11]);
    build.add_row(&[]);
    build.add_row(&[]);
    build.add_row(&[]);
    build.add_row(&[1, 3]);
    let jagged: JaggedBitset = build.build();
    assert_eq!(&jagged.row(0), &[0, 2, 4, 8]);
    assert_eq!(&jagged.row(2), &[1, 3, 5, 7, 9, 11]);
    let empty = Builder::new().build();
    assert_eq!(empty.height(), 0);
    assert_eq!(empty.max_width(), 0);
}

#[test]
fn braille_trans_display() {
    let jagged = Builder::with_capacity(10)
        .with_row(&[7, 8, 9, 10, 11, 12, 13])
        .with_row(&[0, 9, 10, 11, 12, 13, 14, 15, 16, 17])
        .with_row(&[0, 1, 2, 4, 5, 6, 13, 14])
        .with_row(&[4, 5, 7, 8, 9, 10, 11, 12, 13, 14, 15, 16, 17])
        .with_row(&[0, 1, 2, 3, 4, 5, 6, 7, 8, 9, 10, 11, 12, 13, 14, 15, 16, 17])
        .with_row(&[0, 1, 3, 4, 7, 8, 9, 10, 11, 15, 16, 17])
        .with_row(&[0, 2, 4, 6, 8, 10, 12, 14, 16, 17])
        .with_row(&[1, 3, 5, 7, 9, 11, 13, 15, 16])
        .with_row(&[])
        .with_row(&[11])
        .build();
    let shown = render(jagged.braille_trans_display().render());
    let expected = "🭴⠈⠇⣟⢕⠀🭰\n🭴⡀⢟⣏⢕⠀🭰\n🭴⣷⢸⣿⢕⢀🭰\n🭴⢻⢾⣇⢕⠀🭰\n🭴⠘⠘⠛⠋⠀🭰";
    assert_eq!(expected, &shown);
}

#[test]
fn braille_display() {
    let jagged = Builder::with_capacity(10)
        .with_row(&[7, 8, 9, 10, 11, 12, 13])
        .with_row(&[0, 9, 10, 11, 12, 13, 14, 15, 16, 17])
        .with_row(&[0, 1, 2, 4, 5, 6, 13, 14])
        .with_row(&[4, 5, 7, 8, 9, 10, 11, 12, 13, 14, 15, 16, 17])
        .build();
    let shown = render(jagged.braille_display().render());
    let expected = "🭴⠦⠄⣤⢌⣙⣛⣻⣖⣒🭰";
    assert_eq!(expected, &shown);
}

#[test]
fn braille_display_empty() {
    let jagged = Builder::new().build();
    assert_eq!(render(jagged.braille_display().render()), "🭴🭰");
}

#[test]
fn jagged_vec_into_vecs() {
    let ends = [0, 0, 3, 4, 7, 9, 10, 10];
    let data = [0, 1, 2, 3, 4, 5, 6, 7, 8, 9, 11, 23];
    let jagged = JaggedVec::new(ends.to_vec(), data.to_vec()).unwrap();
    let iliffe = jagged.into_vecs();
    assert_eq!(
        iliffe,
        vec![
            vec![],
            vec![],
            vec![0, 1, 2],
            vec![3],
            vec![4, 5, 6],
            vec![7, 8],
            vec![9],
            vec![],
            vec![11, 23],
        ],
    );
}

#[test]
fn jagged_vec_row_get() {
    let ends = [0, 0, 3, 4, 7, 9, 10, 10];
    let data = [0, 1, 2, 3, 4, 5, 6, 7, 8, 9];
    let jagged = JaggedVec::new(ends.to_vec(), data.to_vec()).unwrap();
    assert_eq!(jagged.row(4), &[4, 5, 6]);
    assert_eq!(jagged.get(4), Some(&4));
    assert_eq!(jagged.get(10), None);
    assert_eq!(jagged.len(), 10);
    assert_eq!(jagged.height(), 9);
    assert_eq!(jagged.row(8), &[] as &[i32]);
}

#[test]
fn jagged_vec_push_row() {
    let mut jagged = JaggedVec::new(vec![2], vec!['a', 'b', 'c']).unwrap();
    jagged.push_row(vec!['d', 'e']);
    assert_eq!(jagged.height(), 3);
    assert_eq!(jagged.row(1), &['c']);
    assert_eq!(jagged.row(2), &['d', 'e']);
}

#[test]
fn jagged_vec_errors() {
    let err = JaggedVec::new(vec![0, 5, 3], vec![1, 2, 3, 4, 5]).unwrap_err();
    assert_eq!(err, jagged_vec::Error::BadEnd { i: 2 });
    let err = JaggedVec::new(vec![0, 6, 3], vec![1, 2, 3, 4, 5]).unwrap_err();
    assert_eq!(err, jagged_vec::Error::TooLongEnd { i: 1, len: 5, end: 6 });
}

#[test]
fn jagged_const_row_array_into_vecs() {
    let ends = [0, 0, 3, 4, 7, 9, 10, 10];
    let data = [0, 1, 2, 3, 4, 5, 6, 7, 8, 9, 11, 32];
    let jagged = JaggedConstRowArray::new(Box::new(ends), Box::new(data)).unwrap();
    let iliffe = jagged.into_vecs();
    assert_eq!(
        iliffe,
        vec![
            vec![],
            vec![],
            vec![0, 1, 2],
            vec![3],
            vec![4, 5, 6],
            vec![7, 8],
            vec![9],
            vec![],
            vec![11, 32],
        ],
    );
}

#[test]
fn jagged_const_row_array_row_get() {
    let ends = [0, 0, 3, 4, 7, 9, 10, 10];
    let data = [0, 1, 2, 3, 4, 5, 6, 7, 8, 9];
    let jagged = JaggedConstRowArray::new(Box::new(ends), Box::new(data)).unwrap();
    assert_eq!(jagged.row(4), &[4, 5, 6]);
    assert_eq!(jagged.get(4), Some(&4));
    assert_eq!(jagged.len(), 10);
    assert!(!jagged.is_empty());
    assert_eq!(jagged.height(), 9);
}

#[test]
fn jagged_const_row_array_errors() {
    let err = JaggedConstRowArray::new(Box::new([2, 1]), Box::new([1, 2, 3])).unwrap_err();
    assert_eq!(err, jagged_const_row_array::Error::BadEnd { i: 1 });
    let err = JaggedConstRowArray::new(Box::new([4, 1]), Box::new([1, 2, 3])).unwrap_err();
    assert_eq!(err, jagged_const_row_array::Error::TooLongEnd { i: 0, len: 3, end: 4 });
}
