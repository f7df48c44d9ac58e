use cuicui::binding::Id;
use cuicui::bitset::Bitset;
use cuicui::resolve::{
    contains_field, field_f2m, field_m2m, m2m, mask, mask_range, MakeModify, MaskRange, ModifyIndex,
};
use cuicui::Index;

fn modify(range: std::ops::Range<u32>, depends: u64, changes: u64) -> MakeModify {
    MakeModify { range, depends, changes, binding: None }
}

fn ones(bits: &Bitset) -> Vec<u32> {
    let len = bits.bit_len();
    bits.ones_in_range(0..len).to_vec()
}

#[test]
fn modify_index() {
    assert_eq!(ModifyIndex::new(5), ModifyIndex(5));
    assert_eq!(ModifyIndex::new(7).get(), 7);
    assert_eq!(ModifyIndex::new(u32::MAX as usize), ModifyIndex(u32::MAX));
}

#[test]
fn fields() {
    assert!(contains_field(0b101, 0));
    assert!(!contains_field(0b101, 1));
    assert!(contains_field(0b101, 2));
    assert!(contains_field(1 << 63, 63));
}

#[test]
fn modifier_accessors() {
    let bound = MakeModify { range: 1..3, depends: 2, changes: 4, binding: Id::new(9) };
    let child = modify(1..2, 0, 0);
    assert!(bound.parent_of(&child));
    assert!(!child.parent_of(&bound));
    assert_eq!(bound.depends(), 2);
    assert_eq!(bound.changes(), 4);
}

#[test]
fn mask_range_of_children() {
    let parent = modify(2..10, 0, 0b11);
    // Writes field 0 without reading it: masks its sections.
    let child = modify(4..6, 0, 0b01);
    assert_eq!(mask_range(&parent, &child), 2..4);
    // Reads what it writes: masks nothing.
    let reading = modify(4..6, 0b01, 0b01);
    assert_eq!(mask_range(&parent, &reading), 0..0);
    // Writes another field: masks nothing.
    let other = modify(4..6, 0, 0b100);
    assert_eq!(mask_range(&parent, &other), 0..0);
}

#[test]
fn masks_of_modifiers() {
    let modifiers = vec![
        modify(0..10, 0, 0b1),
        modify(2..4, 0, 0b1),
        modify(5..7, 0, 0b10),
        modify(6..8, 0b1, 0b1),
        modify(8..12, 0, 0b1),
    ];
    assert_eq!(ones(&mask(&modifiers, 0)), vec![2, 3]);
    assert_eq!(ones(&mask(&modifiers, 1)), Vec::<u32>::new());
    assert_eq!(ones(&mask(&modifiers, 4)), Vec::<u32>::new());

    let mut masker = MaskRange::new(&modifiers);
    masker.add_index(0);
    masker.add_index(2);
    masker.add_index(0);
    let masks = masker.build();
    assert_eq!(masks.height(), 3);
    assert_eq!(masks.row(0), vec![2, 3]);
    assert_eq!(masks.row(1), Vec::<u32>::new());
    assert_eq!(masks.row(2), vec![2, 3]);
}

#[test]
fn field_dependencies() {
    // field 0: modifier 0 writes sections 0..4, modifier 1 reads section 2,
    // modifier 2 reads section 6 (no parent), modifier 3 writes 5..9 and
    // modifier 4 reads section 7.
    let modifiers = vec![
        modify(1..4, 0, 0b1),
        modify(2..3, 0b1, 0),
        modify(6..7, 0b1, 0),
        modify(6..9, 0, 0b1),
        modify(7..8, 0b1, 0b10),
        modify(8..9, 0b10, 0),
    ];
    assert_eq!(field_f2m(&modifiers, 0), vec![ModifyIndex(2)]);
    assert_eq!(field_f2m(&modifiers, 1), Vec::<ModifyIndex>::new());
    assert_eq!(
        field_m2m(&modifiers, 0),
        vec![(ModifyIndex(0), ModifyIndex(1)), (ModifyIndex(3), ModifyIndex(4))]
    );
    assert_eq!(field_m2m(&modifiers, 1), Vec::<(ModifyIndex, ModifyIndex)>::new());
    assert_eq!(
        m2m(&modifiers, 2),
        vec![(ModifyIndex(0), ModifyIndex(1)), (ModifyIndex(3), ModifyIndex(4))]
    );
}

#[test]
fn root_reader_at_section_zero() {
    // A reader at section 0 with no writer before it is not listed as
    // depending on the root value: the running end starts at 0.
    let modifiers = vec![modify(0..1, 0b1, 0), modify(1..2, 0b1, 0)];
    assert_eq!(field_f2m(&modifiers, 0), vec![ModifyIndex(1)]);
}

use cuicui::resolve::is_static::CheckStatic;
use cuicui::resolve::purge_static;

#[test]
fn static_check() {
    let mut checker = CheckStatic::new();
    // Depends on nothing: static.
    assert!(checker.is_static(&modify(0..10, 0, 0b1)));
    // Reads a field no tracked parent writes once the parents that do not
    // contain it are dropped: not static.
    assert!(!checker.is_static(&modify(2..4, 0b1, 0b10)));
    // Bound: never static.
    let bound = MakeModify { range: 4..5, depends: 0, changes: 0, binding: Id::new(1) };
    assert!(!checker.is_static(&bound));
    assert!(checker.is_static(&modify(5..6, 0, 0)));
}

#[test]
fn purge_static_modifiers() {
    let (statics, masks) = purge_static(&[modify(0..10, 0, 0b1)]);
    assert_eq!(statics, vec![true]);
    assert_eq!(masks.height(), 0);

    let modifiers = vec![modify(0..10, 0b1, 0b1), modify(2..4, 0, 0b1)];
    let (statics, masks) = purge_static(&modifiers);
    assert_eq!(statics, vec![false, true]);
    assert_eq!(masks.height(), 1);
    assert_eq!(masks.row(0), vec![2, 3]);

    let bound = MakeModify { range: 0..3, depends: 0, changes: 0b1, binding: Id::new(2) };
    let (statics, masks) = purge_static(&[bound, modify(1..2, 0b1, 0)]);
    assert_eq!(statics, vec![false, false]);
    assert_eq!(masks.height(), 2);
    assert_eq!(masks.row(0), Vec::<u32>::new());
    assert_eq!(masks.row(1), Vec::<u32>::new());
}

use cuicui::resolve::build;

#[test]
fn build_dependency_tables() {
    let bound = MakeModify { range: 0..1, depends: 0, changes: 0b1, binding: Id::new(4) };
    let modifiers = vec![
        // Static: depends on nothing.
        modify(0..3, 0, 0b10),
        bound,
        // Reads field 0, written by the bound modifier over section 0.
        modify(0..1, 0b1, 0),
        // Reads field 1 with no parent at its start: depends on the root.
        modify(2..3, 0b10, 0),
        MakeModify { range: 2..3, depends: 0, changes: 0b1, binding: Id::new(2) },
    ];
    let (deps, kept, statics) = build(modifiers, 2);
    assert_eq!(statics, vec![true, false, false, false, false]);
    assert_eq!(kept.len(), 4);
    assert_eq!(deps.masks.height(), 4);
    assert_eq!(deps.f2m, vec![vec![], vec![ModifyIndex(2)]]);
    assert_eq!(deps.m2m.get(0), vec![1]);
    assert_eq!(deps.m2m.get(1), Vec::<u32>::new());
    assert!(deps.fits(4));
    assert!(!deps.fits(3));
    assert!(!deps.fits(5));
    let b2m = deps.b2m.into_inner();
    assert_eq!(b2m, vec![(2, ModifyIndex(3)), (4, ModifyIndex(0))]);
}

use cuicui::jagged_bitset::Builder;
use cuicui::resolve::evaluate::{index_of, sections_of, update, update_all, Action};

fn action(index: u32, sections: Vec<u32>, reset: bool, bound: bool) -> Action {
    Action { index: ModifyIndex(index), sections, reset, bound }
}

#[test]
fn unmasked_sections() {
    let masks = Builder::with_capacity(3).with_row(&[1, 2]).with_row(&[0]).with_row(&[]).build();
    assert_eq!(sections_of(&modify(0..4, 0, 0), &masks, 0), vec![0, 3]);
    // A single section is never masked.
    assert_eq!(sections_of(&modify(5..6, 0, 0), &masks, 1), vec![5]);
    assert_eq!(sections_of(&modify(5..8, 0, 0), &masks, 1), vec![6, 7]);
    assert_eq!(sections_of(&modify(2..2, 0, 0), &masks, 2), Vec::<u32>::new());
}

#[test]
fn evaluate_updates() {
    let bound = MakeModify { range: 0..1, depends: 0, changes: 0b1, binding: Id::new(4) };
    let modifiers = vec![
        modify(0..3, 0, 0b10),
        bound,
        modify(0..1, 0b1, 0),
        modify(2..3, 0b10, 0),
        MakeModify { range: 2..3, depends: 0, changes: 0b1, binding: Id::new(2) },
    ];
    let (deps, kept, _) = build(modifiers, 2);
    assert_eq!(index_of(&deps.b2m, Id::new(4).unwrap()), Some(ModifyIndex(0)));
    assert_eq!(index_of(&deps.b2m, Id::new(2).unwrap()), Some(ModifyIndex(3)));
    assert_eq!(index_of(&deps.b2m, Id::new(3).unwrap()), None);

    let actions = update_all(&deps, &kept, 0b10, &[Id::new(4).unwrap()]);
    assert_eq!(
        actions,
        vec![
            action(0, vec![0], false, true),
            action(1, vec![0], false, false),
            action(2, vec![2], true, false),
        ]
    );
    let actions = update_all(&deps, &kept, 0, &[Id::new(2).unwrap(), Id::new(9).unwrap()]);
    assert_eq!(actions, vec![action(3, vec![2], false, true)]);

    // A bound modifier without its binding's value has nothing to apply:
    // neither it nor what depends on it is updated.
    let mut out = Vec::new();
    update(&deps, &kept, 0, true, false, &mut out);
    assert!(out.is_empty());
    update(&deps, &kept, 1, true, false, &mut out);
    assert_eq!(out, vec![action(1, vec![0], true, false)]);
}
