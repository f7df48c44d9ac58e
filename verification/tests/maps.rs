use cuicui::bitmatrix::BitMatrix;
use cuicui::bitmultimap::BitMultiMap;
use cuicui::index_map::IndexMap;
use cuicui::index_multimap::IndexMultimap;
use cuicui::sorted::{KeySorted, Sorted};

#[test]
fn bitmultimap_doc() {
    let associations: Vec<(char, i64)> = vec![
        ('E', -1),
        ('G', -1), ('G', 342),
        ('H', -5), ('H', 10), ('H', 342),
        ('M', -5), ('M', 10),
        ('S', 342),
        ('T',-5), ('T',-1), ('T',1024),
    ];
    // values are shifted to be unsigned, keeping their order
    let to_u32 = |v: i64| (v + 100) as u32;
    let pairs = associations.iter().map(|(k, v)| (*k as u32, to_u32(*v))).collect();
    let map = BitMultiMap::from_pairs(pairs);

    assert_eq!(map.get('V' as u32), Vec::<u32>::new());
    assert_eq!(map.get('T' as u32), vec![to_u32(-5), to_u32(-1), to_u32(1024)]);
    let keys: Vec<char> = map.get_keys_of(to_u32(-1)).into_iter().map(|k| char::from_u32(k).unwrap()).collect();
    assert_eq!(&keys, &['E', 'G', 'T']);
    let keys: Vec<char> = map.keys().iter().map(|k| char::from_u32(*k).unwrap()).collect();
    assert_eq!(&keys, &['E', 'G', 'H', 'M', 'S', 'T']);
    let values: Vec<u32> = [-5, -1, 10, 342, 1024].into_iter().map(to_u32).collect();
    assert_eq!(map.values(), &values[..]);
}

#[test]
fn bitmatrix_rows_and_columns() {
    let mut matrix = BitMatrix::new_with_size(5, 3);
    assert_eq!(matrix.enable_bit(5, 0, 1), Some(()));
    assert_eq!(matrix.enable_bit(5, 1, 1), Some(()));
    assert_eq!(matrix.enable_bit(5, 1, 4), Some(()));
    assert_eq!(matrix.enable_bit(5, 2, 0), Some(()));
    assert_eq!(matrix.row(5, 1), vec![1, 4]);
    assert_eq!(matrix.row(5, 0), vec![1]);
    assert!(matrix.bit(1, 1, 5));
    assert!(!matrix.bit(2, 1, 5));
    assert!(!matrix.bit(6, 0, 5));
    let mut column = matrix.active_rows_in_column(5, 1);
    assert_eq!(column.next(), Some(0));
    assert_eq!(column.next(), Some(1));
    assert_eq!(column.next(), None);
    assert_eq!(matrix.enable_bit(5, 100, 0), None);
}

#[test]
fn column_size_hint() {
    let mut m = BitMatrix::new_with_size(1, 4);
    for r in 0..4 {
        assert_eq!(m.enable_bit(1, r, 0), Some(()));
    }
    let mut c = m.active_rows_in_column(1, 0);
    let (low, high) = c.size_hint();
    assert_eq!(low, 0);
    assert!(high.unwrap() >= 4);
    assert_eq!(high, Some(32));
    assert_eq!(c.next(), Some(0));
    assert_eq!(c.size_hint().1, Some(31));
}

#[test]
fn sextant_display() {
    let mut matrix = BitMatrix::new_with_size(4, 3);
    for (row, col) in [(0, 0), (0, 1), (1, 0), (1, 1), (2, 0), (2, 1), (0, 2)] {
        matrix.enable_bit(4, row, col);
    }
    let shown: String = matrix.sextant_display(4, 3).render().into_iter().collect();
    assert_eq!(shown, "🭴█\u{1fb00}🭰");
    let empty: String = matrix.sextant_display(4, 0).render().into_iter().collect();
    assert_eq!(empty, "🭴🭰");
}

#[test]
fn sextant_all_but_top_left() {
    let mut m = BitMatrix::new_with_size(2, 3);
    for (r, c) in [(0, 1), (1, 0), (1, 1), (2, 0), (2, 1)] {
        assert_eq!(m.enable_bit(2, r, c), Some(()));
    }
    let shown: String = m.sextant_display(2, 3).render().into_iter().collect();
    assert_eq!(shown, "\u{1fb74}\u{1fb3b}\u{1fb70}");
}

#[test]
fn sextant_half_blocks() {
    let mut left = BitMatrix::new_with_size(2, 3);
    let mut right = BitMatrix::new_with_size(2, 3);
    for r in 0..3 {
        left.enable_bit(2, r, 0);
        right.enable_bit(2, r, 1);
    }
    let shown: String = left.sextant_display(2, 3).render().into_iter().collect();
    assert_eq!(shown, "\u{1fb74}\u{258c}\u{1fb70}");
    let shown: String = right.sextant_display(2, 3).render().into_iter().collect();
    assert_eq!(shown, "\u{1fb74}\u{2590}\u{1fb70}");
}

#[test]
fn index_map_set_get_remove() {
    let mut map: IndexMap<usize, u32> = IndexMap::new_with_size(5, 4);
    assert_eq!(map.get(&2), None);
    map.set(&2, &5u32);
    assert_eq!(map.get(&2), Some(5));
    map.set(&2, &0u32);
    assert_eq!(map.get(&2), Some(0));
    map.set(&1, &3u32);
    assert_eq!(map.get(&1), Some(3));
    assert_eq!(map.get(&2), Some(0));
    map.remove(&2);
    assert_eq!(map.get(&2), None);
    assert_eq!(map.get(&1), Some(3));
    assert_eq!(map.row_index(&3), 9);
    assert_eq!(map.value_mask(), 7);
}

#[test]
fn index_map_last_key() {
    let mut map: IndexMap<usize, u64> = IndexMap::new_with_size(0, 1);
    map.set(&1, &0u64);
    assert_eq!(map.get(&1), Some(0));
    assert_eq!(map.get(&0), None);
    map.set(&0, &0u64);
    assert_eq!(map.get(&0), Some(0));
    assert_eq!(map.get(&1), Some(0));
}

#[test]
fn index_map_single_key() {
    let mut map: IndexMap<usize, u32> = IndexMap::new_with_size(1, 0);
    assert_eq!(map.get(&0), None);
    map.set(&0, &1u32);
    assert_eq!(map.get(&0), Some(1));
    map.remove(&0);
    assert_eq!(map.get(&0), None);
}

#[test]
fn index_multimap_from_pairs() {
    let map: IndexMultimap<usize, usize> = IndexMultimap::from_pairs(vec![(1, 2), (1, 4), (3, 1), (2, 5)]);
    assert_eq!(map.get(1), vec![2, 4]);
    assert_eq!(map.get(3), vec![1]);
    assert_eq!(map.get(2), vec![5]);
    assert_eq!(map.get(0), Vec::<usize>::new());
}

#[test]
fn index_multimap_keeps_all_associations() {
    let m: IndexMultimap<usize, usize> = IndexMultimap::from_pairs(vec![(0, 1), (1, 0)]);
    assert_eq!(m.get(0), vec![1]);
    assert_eq!(m.get(1), vec![0]);
}

#[test]
fn sorted_collections() {
    let sorted = Sorted::from_vec(vec![5, 1, 3, 1]);
    assert_eq!(sorted.slice(), &[1, 1, 3, 5]);
    assert_eq!(sorted.binary_search(3), Ok(2));
    assert!(sorted.binary_search(2).is_err());
    assert_eq!(sorted.get(3), Some(5));
    assert_eq!(sorted.into_inner(), vec![1, 1, 3, 5]);

    let by_key = KeySorted::from_vec(vec![(3, 'c'), (1, 'a'), (2, 'b')]);
    let mut iter = by_key.iter();
    assert_eq!(iter.len(), 3);
    assert_eq!(iter.next(), Some((&1, &'a')));
    assert_eq!(iter.next(), Some((&2, &'b')));
    assert_eq!(iter.next(), Some((&3, &'c')));
    assert_eq!(iter.next(), None);
    assert_eq!(by_key.into_inner(), vec![(1, 'a'), (2, 'b'), (3, 'c')]);
}

#[test]
fn index_map_from_pairs() {
    let map: IndexMap<usize, u32> = IndexMap::from_pairs(vec![(1, 3), (2, 5), (1, 4)]);
    assert_eq!(map.get(&1), Some(4));
    assert_eq!(map.get(&2), Some(5));
    assert_eq!(map.get(&0), None);

    let empty: IndexMap<usize, u32> = IndexMap::from_pairs(vec![]);
    assert_eq!(empty.value_mask(), 1);
}
